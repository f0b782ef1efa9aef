//! What the parser makes of an rcfile, stated as spec functions over its
//! lines: each reads from a state (the next line, the nesting depth and
//! the warnings so far) and gives a result and the state after it.

use vstd::prelude::*;

use super::error::{ErrorModel, HaltModel};
use super::line::{assignment_of, header_of, splits_char, subst_of, unclosed_quote};
use super::lines::{
    lemma_lines_weight, lemma_progress, lemma_weight_mono, lemma_weight_step, lines_of, offset_at,
    progress, weight,
};
use super::warning::ParseWarning;
use crate::config::{
    action_of, condition_of, has, ActionModel, ConditionModel, ItemModel, RecipeModel,
};
use crate::text::{
    back_ws, ends_with_char, lemma_back_ws_all, lemma_skip_ws_all, skip_ws, starts_with_char, trim,
    trim_start,
};

verus! {

/// Nested blocks go this deep at most.
pub const MAX_DEPTH: usize = 100;

/// The parser's state: the index of the next line, how deep in nested
/// blocks it is, and the warnings so far.
pub struct PState {
    pub pos: nat,
    pub depth: nat,
    pub warns: Seq<ParseWarning>,
}

/// `st` moved to line `p`.
pub open spec fn at(st: PState, p: nat) -> PState {
    PState { pos: p, depth: st.depth, warns: st.warns }
}

/// A line that holds nothing, or only a comment.
pub open spec fn blank_or_comment(l: Seq<char>) -> bool {
    let t = trim(l);
    t.len() == 0 || t[0] == '#'
}

/// The first line from `p` that is neither blank nor a comment.
pub open spec fn skip_blank(ls: Seq<Seq<char>>, p: nat) -> nat
    decreases ls.len() - p,
{
    if p < ls.len() && blank_or_comment(ls[p as int]) {
        skip_blank(ls, p + 1)
    } else {
        p
    }
}

/// While `r` ends with a backslash, the backslash goes and the next line,
/// trimmed, is joined on (at the end of the input, only the backslash
/// goes). The text and the next line after.
pub open spec fn join_backslash(ls: Seq<Seq<char>>, p: nat, r: Seq<char>) -> (Seq<char>, nat)
    decreases ls.len() - p,
{
    if ends_with_char(r, '\\') {
        if p < ls.len() {
            join_backslash(ls, p + 1, r.drop_last() + trim(ls[p as int]))
        } else {
            (r.drop_last(), p)
        }
    } else {
        (r, p)
    }
}

/// While `r` leaves a quote open and lines are left, the next line is
/// joined on after a newline.
pub open spec fn join_quoted(ls: Seq<Seq<char>>, p: nat, r: Seq<char>) -> (Seq<char>, nat)
    decreases ls.len() - p,
{
    if unclosed_quote(r) && p < ls.len() {
        join_quoted(ls, p + 1, r + seq!['\n'] + ls[p as int])
    } else {
        (r, p)
    }
}

/// A logical line that starts with `first`, the next line being `p`:
/// backslash continuations first, then lines that close an open quote.
pub open spec fn continuation(ls: Seq<Seq<char>>, p: nat, first: Seq<char>) -> (Seq<char>, nat) {
    let (r, q) = join_backslash(ls, p, first);
    join_quoted(ls, q, r)
}

/// The condition lines from line `p` on: each line that starts (once
/// trimmed) with `*`, with its continuation; a condition that cannot be
/// read and is not blank gives a warning at the line's offset.
pub open spec fn conditions(
    ls: Seq<Seq<char>>,
    p: nat,
    conds: Seq<ConditionModel>,
    warns: Seq<ParseWarning>,
) -> (Seq<ConditionModel>, nat, Seq<ParseWarning>)
    decreases ls.len() - p,
{
    if p < ls.len() && starts_with_char(trim(ls[p as int]), '*') {
        let (full, q) = continuation(ls, p + 1, trim(ls[p as int]).skip(1));
        proof {
            lemma_continuation(ls, p + 1, trim(ls[p as int]).skip(1));
        }
        match condition_of(full) {
            Some(c) => conditions(ls, q, conds.push(c), warns),
            None => conditions(
                ls,
                q,
                conds,
                if trim(full).len() > 0 {
                    warns.push(ParseWarning::BadCondition { span: offset_at(ls, p) as usize })
                } else {
                    warns
                },
            ),
        }
    } else {
        (conds, p, warns)
    }
}

/// The warning for a line that is neither an item nor a recipe: a bad
/// variable name where it holds `=`, a skipped line otherwise.
pub open spec fn line_warning(full: Seq<char>, span: nat) -> ParseWarning {
    if has(full, '=') {
        ParseWarning::BadVarName { span: span as usize }
    } else {
        ParseWarning::SkippedLine { span: span as usize }
    }
}

/// All items from the state on, up to the end of the lines or a `}`.
pub open spec fn items(ls: Seq<Seq<char>>, st: PState) -> (Result<Seq<ItemModel>, HaltModel>, PState)
    decreases weight(ls, st.pos), 6nat,
{
    let (r, st2) = next_item(ls, st);
    match r {
        Err(e) => (Err(e), st2),
        Ok(None) => (Ok(Seq::empty()), st2),
        Ok(Some(it)) => if progress(ls, st.pos, st2.pos) {
            proof {
                lemma_progress(ls, st.pos, st2.pos);
            }
            let (r3, st3) = items(ls, st2);
            match r3 {
                Ok(rest) => (Ok(seq![it] + rest), st3),
                Err(e) => (Err(e), st3),
            }
        } else {
            // not reached: an item takes at least its own line
            (Ok(seq![it]), st2)
        },
    }
}

/// A nested block opened on line `start`: its items up to the closing
/// `}`, one level deeper; too deep a nesting is an error.
pub open spec fn block(ls: Seq<Seq<char>>, st: PState, start: nat) -> (
    Result<Seq<ItemModel>, HaltModel>,
    PState,
)
    decreases weight(ls, st.pos), 5nat,
{
    if st.depth >= MAX_DEPTH {
        (Err(HaltModel::Error(ErrorModel::TooDeep(start))), st)
    } else {
        let (r, st2) = block_items(
            ls,
            PState { pos: st.pos, depth: st.depth + 1, warns: st.warns },
            start,
        );
        match r {
            Ok(its) => (Ok(its), PState { pos: st2.pos, depth: (st2.depth - 1) as nat, warns: st2.warns }),
            Err(e) => (Err(e), st2),
        }
    }
}

/// The items of a nested block up to and past its closing `}`; the end
/// of the lines before it is an error, and the depth comes back up.
pub open spec fn block_items(ls: Seq<Seq<char>>, st: PState, start: nat) -> (
    Result<Seq<ItemModel>, HaltModel>,
    PState,
)
    decreases weight(ls, st.pos), 4nat,
{
    let p1 = skip_blank(ls, st.pos);
    proof {
        lemma_skip_blank(ls, st.pos);
        lemma_weight_mono(ls, st.pos, p1);
    }
    if p1 >= ls.len() {
        (
            Err(HaltModel::Error(ErrorModel::UnclosedBlock(start))),
            PState { pos: p1, depth: (st.depth - 1) as nat, warns: st.warns },
        )
    } else if starts_with_char(trim(ls[p1 as int]), '}') {
        (Ok(Seq::empty()), at(st, p1 + 1))
    } else {
        let (r, st2) = next_item(ls, at(st, p1));
        match r {
            Err(e) => (Err(e), st2),
            Ok(None) => (
                Err(HaltModel::Error(ErrorModel::UnclosedBlock(start))),
                PState { pos: st2.pos, depth: (st2.depth - 1) as nat, warns: st2.warns },
            ),
            Ok(Some(it)) => if progress(ls, p1, st2.pos) {
                proof {
                    lemma_progress(ls, p1, st2.pos);
                }
                let (r3, st3) = block_items(ls, st2, start);
                match r3 {
                    Ok(rest) => (Ok(seq![it] + rest), st3),
                    Err(e) => (Err(e), st3),
                }
            } else {
                // not reached: an item takes at least its own line
                (Ok(seq![it]), st2)
            },
        }
    }
}

/// The next item: past blank and comment lines, a recipe (a line that
/// starts with `:`), nothing at a `}` or at the end, else a logical line
/// that is a substitution or an assignment. A line that is neither is
/// skipped with a warning at its offset.
pub open spec fn next_item(ls: Seq<Seq<char>>, st: PState) -> (
    Result<Option<ItemModel>, HaltModel>,
    PState,
)
    decreases weight(ls, st.pos), 3nat,
{
    let p1 = skip_blank(ls, st.pos);
    proof {
        lemma_skip_blank(ls, st.pos);
        lemma_weight_mono(ls, st.pos, p1);
    }
    if p1 >= ls.len() {
        (Ok(None), at(st, p1))
    } else {
        let t = trim(ls[p1 as int]);
        let ln = p1 + 1;
        if starts_with_char(t, ':') {
            let (r, st2) = recipe(ls, at(st, p1));
            match r {
                Ok(rec) => (Ok(Some(ItemModel::Recipe { recipe: rec, line: ln })), st2),
                Err(e) => (Err(e), st2),
            }
        } else if starts_with_char(t, '}') {
            (Ok(None), at(st, p1))
        } else {
            let (full, p2) = continuation(ls, p1 + 1, t);
            if splits_char(full) {
                (Err(HaltModel::SplitChar), at(st, p2))
            } else if subst_of(full, ln) is Some {
                (Ok(subst_of(full, ln)), at(st, p2))
            } else if assignment_of(full, ln) is Some {
                (Ok(assignment_of(full, ln)), at(st, p2))
            } else {
                proof {
                    lemma_continuation(ls, p1 + 1, t);
                    lemma_progress(ls, p1, p2);
                }
                next_item(
                    ls,
                    PState {
                        pos: p2,
                        depth: st.depth,
                        warns: st.warns.push(line_warning(full, offset_at(ls, p1))),
                    },
                )
            }
        }
    }
}

/// A recipe whose header is line `st.pos`: the header, the condition
/// lines (after blank and comment lines), and the action line (after
/// more of them); the end of the lines before the action is an error.
pub open spec fn recipe(ls: Seq<Seq<char>>, st: PState) -> (Result<RecipeModel, HaltModel>, PState)
    decreases weight(ls, st.pos), 2nat,
{
    let p = st.pos;
    if p >= ls.len() {
        (Err(HaltModel::Error(ErrorModel::UnexpectedEof(p + 1))), st)
    } else {
        match header_of(ls[p as int], p + 1, offset_at(ls, p)) {
            Err(e) => (Err(HaltModel::Error(e)), at(st, p + 1)),
            Ok((flags, lockfile, fw)) => {
                let p2 = skip_blank(ls, p + 1);
                let (conds, p3, warns3) = conditions(ls, p2, Seq::empty(), st.warns + fw);
                let p4 = skip_blank(ls, p3);
                if p4 >= ls.len() {
                    (
                        Err(HaltModel::Error(ErrorModel::MissingAction(p4 + 1))),
                        PState { pos: p4, depth: st.depth, warns: warns3 },
                    )
                } else {
                    proof {
                        lemma_skip_blank(ls, p + 1);
                        lemma_conditions(ls, p2, Seq::empty(), st.warns + fw);
                        lemma_skip_blank(ls, p3);
                        lemma_weight_mono(ls, p, p4);
                        lemma_weight_step(ls, p4);
                        lemma_trim_len(ls[p4 as int]);
                    }
                    let (r, st5) = action(
                        ls,
                        PState { pos: p4 + 1, depth: st.depth, warns: warns3 },
                        trim(ls[p4 as int]),
                        p4 + 1,
                    );
                    match r {
                        Ok(a) => (Ok(RecipeModel { flags, lockfile, conds, action: a }), st5),
                        Err(e) => (Err(e), st5),
                    }
                }
            },
        }
    }
}

/// The text inside `{ ... }` when the whole block stands on one line.
pub open spec fn inline_block(line: Seq<char>) -> Option<Seq<char>> {
    if starts_with_char(line, '{') {
        let rest = trim(line.skip(1));
        if ends_with_char(rest, '}') {
            Some(trim(rest.drop_last()))
        } else {
            None
        }
    } else {
        None
    }
}

/// The action of a recipe, its (trimmed) line `line` (line number `ln`)
/// read already: a block on that one line is parsed on its own, from
/// the same depth and with warnings of its own that are dropped; a `{`
/// opens a block over the following lines; else the logical line is an
/// action line.
pub open spec fn action(ls: Seq<Seq<char>>, st: PState, line: Seq<char>, ln: nat) -> (
    Result<ActionModel, HaltModel>,
    PState,
)
    decreases weight(ls, st.pos) + line.len() + 1, 1nat,
{
    if starts_with_char(line, '{') {
        match inline_block(line) {
            Some(inner) => if inner.len() == 0 {
                (Ok(ActionModel::Nested(Seq::empty())), st)
            } else {
                proof {
                    lemma_inline_block_len(line);
                    lemma_lines_weight(inner);
                }
                let (r, _) = items(
                    lines_of(inner),
                    PState { pos: 0, depth: st.depth, warns: Seq::empty() },
                );
                match r {
                    Ok(its) => (Ok(ActionModel::Nested(its)), st),
                    Err(e) => (Err(e), st),
                }
            },
            None => {
                let (r, st2) = block(ls, st, ln);
                match r {
                    Ok(its) => (Ok(ActionModel::Nested(its)), st2),
                    Err(e) => (Err(e), st2),
                }
            },
        }
    } else {
        let (full, p2) = continuation(ls, st.pos, line);
        (Ok(action_of(full)), at(st, p2))
    }
}

/// What parsing the text `s` gives: its items (or why it stopped), and
/// the state at the end.
pub open spec fn parse_text(s: Seq<char>) -> (Result<Seq<ItemModel>, HaltModel>, PState) {
    items(lines_of(s), PState { pos: 0, depth: 0, warns: Seq::empty() })
}

/// Trimming does not lengthen.
pub proof fn lemma_trim_len(s: Seq<char>)
    ensures
        trim(s).len() <= s.len(),
{
    lemma_skip_ws_all(s, 0);
    let t = trim_start(s);
    lemma_back_ws_all(t, t.len() as int);
}

/// The text of a one-line block is shorter than its line by its braces.
pub proof fn lemma_inline_block_len(line: Seq<char>)
    requires
        inline_block(line) is Some,
    ensures
        inline_block(line).unwrap().len() + 2 <= line.len(),
{
    let rest = trim(line.skip(1));
    lemma_trim_len(line.skip(1));
    lemma_trim_len(rest.drop_last());
}

/// Skipping blank lines moves forward, and not past the end.
pub proof fn lemma_skip_blank(ls: Seq<Seq<char>>, p: nat)
    ensures
        p <= skip_blank(ls, p),
        p <= ls.len() ==> skip_blank(ls, p) <= ls.len(),
    decreases ls.len() - p,
{
    if p < ls.len() && blank_or_comment(ls[p as int]) {
        lemma_skip_blank(ls, p + 1);
    }
}

/// Joining lines moves forward.
pub proof fn lemma_continuation(ls: Seq<Seq<char>>, p: nat, first: Seq<char>)
    ensures
        p <= continuation(ls, p, first).1,
        p <= ls.len() ==> continuation(ls, p, first).1 <= ls.len(),
{
    lemma_join_backslash(ls, p, first);
    let (r, q) = join_backslash(ls, p, first);
    lemma_join_quoted(ls, q, r);
}

proof fn lemma_join_backslash(ls: Seq<Seq<char>>, p: nat, r: Seq<char>)
    ensures
        p <= join_backslash(ls, p, r).1,
        p <= ls.len() ==> join_backslash(ls, p, r).1 <= ls.len(),
    decreases ls.len() - p,
{
    if ends_with_char(r, '\\') && p < ls.len() {
        lemma_join_backslash(ls, p + 1, r.drop_last() + trim(ls[p as int]));
    }
}

proof fn lemma_join_quoted(ls: Seq<Seq<char>>, p: nat, r: Seq<char>)
    ensures
        p <= join_quoted(ls, p, r).1,
        p <= ls.len() ==> join_quoted(ls, p, r).1 <= ls.len(),
    decreases ls.len() - p,
{
    if unclosed_quote(r) && p < ls.len() {
        lemma_join_quoted(ls, p + 1, r + seq!['\n'] + ls[p as int]);
    }
}

/// Reading conditions moves forward.
pub proof fn lemma_conditions(
    ls: Seq<Seq<char>>,
    p: nat,
    conds: Seq<ConditionModel>,
    warns: Seq<ParseWarning>,
)
    ensures
        p <= conditions(ls, p, conds, warns).1,
        p <= ls.len() ==> conditions(ls, p, conds, warns).1 <= ls.len(),
    decreases ls.len() - p,
{
    if p < ls.len() && starts_with_char(trim(ls[p as int]), '*') {
        let (full, q) = continuation(ls, p + 1, trim(ls[p as int]).skip(1));
        lemma_continuation(ls, p + 1, trim(ls[p as int]).skip(1));
        match condition_of(full) {
            Some(c) => lemma_conditions(ls, q, conds.push(c), warns),
            None => lemma_conditions(
                ls,
                q,
                conds,
                if trim(full).len() > 0 {
                    warns.push(ParseWarning::BadCondition { span: offset_at(ls, p) as usize })
                } else {
                    warns
                },
            ),
        }
    }
}

/// Reading items never moves back, and success leaves the depth as it
/// was.
pub proof fn lemma_items(ls: Seq<Seq<char>>, st: PState)
    ensures
        st.pos <= items(ls, st).1.pos,
        items(ls, st).0 is Ok ==> items(ls, st).1.depth == st.depth,
    decreases weight(ls, st.pos), 6nat,
{
    lemma_next_item(ls, st);
    let (r, st2) = next_item(ls, st);
    if r matches Ok(Some(_)) {
        if progress(ls, st.pos, st2.pos) {
            lemma_progress(ls, st.pos, st2.pos);
            lemma_items(ls, st2);
        }
    }
}

/// A block never moves back, and success leaves the depth as it was.
pub proof fn lemma_block(ls: Seq<Seq<char>>, st: PState, start: nat)
    ensures
        st.pos <= block(ls, st, start).1.pos,
        block(ls, st, start).0 is Ok ==> block(ls, st, start).1.depth == st.depth,
    decreases weight(ls, st.pos), 5nat,
{
    if st.depth < MAX_DEPTH {
        lemma_block_items(ls, PState { pos: st.pos, depth: st.depth + 1, warns: st.warns }, start);
    }
}

/// The items of a block never move back, and success leaves the depth
/// as it was.
pub proof fn lemma_block_items(ls: Seq<Seq<char>>, st: PState, start: nat)
    ensures
        st.pos <= block_items(ls, st, start).1.pos,
        block_items(ls, st, start).0 is Ok ==> block_items(ls, st, start).1.depth == st.depth,
    decreases weight(ls, st.pos), 4nat,
{
    let p1 = skip_blank(ls, st.pos);
    lemma_skip_blank(ls, st.pos);
    lemma_weight_mono(ls, st.pos, p1);
    if p1 < ls.len() && !starts_with_char(trim(ls[p1 as int]), '}') {
        lemma_next_item(ls, at(st, p1));
        let (r, st2) = next_item(ls, at(st, p1));
        if r matches Ok(Some(_)) {
            if progress(ls, p1, st2.pos) {
                lemma_progress(ls, p1, st2.pos);
                lemma_block_items(ls, st2, start);
            }
        }
    }
}

/// The next item never moves back; an item takes at least the line it
/// starts on; success leaves the depth as it was.
pub proof fn lemma_next_item(ls: Seq<Seq<char>>, st: PState)
    ensures
        st.pos <= next_item(ls, st).1.pos,
        next_item(ls, st).0 matches Ok(Some(_)) ==> progress(ls, st.pos, next_item(ls, st).1.pos),
        next_item(ls, st).0 is Ok ==> next_item(ls, st).1.depth == st.depth,
    decreases weight(ls, st.pos), 3nat,
{
    let p1 = skip_blank(ls, st.pos);
    lemma_skip_blank(ls, st.pos);
    lemma_weight_mono(ls, st.pos, p1);
    if p1 < ls.len() {
        let t = trim(ls[p1 as int]);
        if starts_with_char(t, ':') {
            lemma_recipe(ls, at(st, p1));
        } else if !starts_with_char(t, '}') {
            let (full, p2) = continuation(ls, p1 + 1, t);
            lemma_continuation(ls, p1 + 1, t);
            if !splits_char(full) && subst_of(full, p1 + 1) is None && assignment_of(full, p1 + 1) is None {
                lemma_progress(ls, p1, p2);
                lemma_next_item(
                    ls,
                    PState {
                        pos: p2,
                        depth: st.depth,
                        warns: st.warns.push(line_warning(full, offset_at(ls, p1))),
                    },
                );
            }
        }
    }
}

/// A recipe never moves back, and one that is read takes at least its
/// header line and leaves the depth as it was.
pub proof fn lemma_recipe(ls: Seq<Seq<char>>, st: PState)
    ensures
        st.pos <= recipe(ls, st).1.pos,
        recipe(ls, st).0 is Ok ==> progress(ls, st.pos, recipe(ls, st).1.pos),
        recipe(ls, st).0 is Ok ==> recipe(ls, st).1.depth == st.depth,
    decreases weight(ls, st.pos), 2nat,
{
    let p = st.pos;
    if p < ls.len() {
        if let Ok((flags, lockfile, fw)) = header_of(ls[p as int], p + 1, offset_at(ls, p)) {
            let p2 = skip_blank(ls, p + 1);
            lemma_skip_blank(ls, p + 1);
            lemma_conditions(ls, p2, Seq::empty(), st.warns + fw);
            let (conds, p3, warns3) = conditions(ls, p2, Seq::empty(), st.warns + fw);
            let p4 = skip_blank(ls, p3);
            lemma_skip_blank(ls, p3);
            if p4 < ls.len() {
                lemma_weight_mono(ls, p, p4);
                lemma_weight_step(ls, p4);
                lemma_trim_len(ls[p4 as int]);
                lemma_action(
                    ls,
                    PState { pos: p4 + 1, depth: st.depth, warns: warns3 },
                    trim(ls[p4 as int]),
                    p4 + 1,
                );
            }
        }
    }
}

/// An action never moves back, and success leaves the depth as it was.
pub proof fn lemma_action(ls: Seq<Seq<char>>, st: PState, line: Seq<char>, ln: nat)
    ensures
        st.pos <= action(ls, st, line, ln).1.pos,
        action(ls, st, line, ln).0 is Ok ==> action(ls, st, line, ln).1.depth == st.depth,
    decreases weight(ls, st.pos) + line.len() + 1, 1nat,
{
    if starts_with_char(line, '{') {
        if inline_block(line) is None {
            lemma_block(ls, st, ln);
        }
    } else {
        lemma_continuation(ls, st.pos, line);
    }
}

} // verus!
