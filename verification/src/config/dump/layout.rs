//! The layout of an rcfile dump: every line of text, with each condition's
//! weight left as a piece of its own for the caller to show.

use vstd::prelude::*;

use super::super::action::{strings_view, Action};
use super::super::condition::{weight_model, Condition, ConditionModel, SizeOp, Weight, WeightModel};
use super::super::recipe::{op_field, op_value, HeaderOp, HeaderOpModel, Item, Recipe};
use super::{fmt_flags, fmt_subst_flags, flag_phrases, joined, subst_flags};
use crate::mailstat::report::{push_chars, push_number, rjust};
use crate::num::{decimal, push_decimal};
use crate::text::{chars_of, ends_with_char, string_from};

verus! {

/// A piece of a dump: text as it stands, or a condition's `w^x` weight,
/// to be shown as the numbers it reads as.
#[derive(Debug, Clone, PartialEq)]
pub enum Piece {
    /// Text.
    Text(String),
    /// A weight.
    Weight(Weight),
}

/// Model of a piece.
pub enum PieceModel {
    Text(Seq<char>),
    Weight(WeightModel),
}

impl View for Piece {
    type V = PieceModel;

    open spec fn view(&self) -> PieceModel {
        match self {
            Piece::Text(s) => PieceModel::Text(s@),
            Piece::Weight(w) => PieceModel::Weight(WeightModel { w: w.w@, x: w.x@ }),
        }
    }
}

/// The models of a sequence of pieces.
pub open spec fn pieces_view(v: Seq<Piece>) -> Seq<PieceModel>
    decreases v.len(),
{
    if v.len() == 0 {
        Seq::empty()
    } else {
        pieces_view(v.drop_last()).push(v.last()@)
    }
}

/// A dump made of one piece of text.
pub open spec fn txt(s: Seq<char>) -> Seq<PieceModel> {
    seq![PieceModel::Text(s)]
}

/// The weight of a condition, when it has one.
pub open spec fn weight_doc(w: Option<WeightModel>) -> Seq<PieceModel> {
    match w {
        Some(w) => seq![PieceModel::Weight(w)],
        None => Seq::empty(),
    }
}

/// What `{:?}` shows of a string: the text in double quotes, with quotes,
/// backslashes and unprintable characters escaped.
pub uninterp spec fn debug_text(s: Seq<char>) -> Seq<char>;

/// A string as `{:?}` shows it (std's `Debug` for `str`).
#[verifier::external_body]
fn quoted(s: &str) -> (r: String)
    ensures
        r@ == debug_text(s@),
{
    format!("{s:?}")
}

/// `!` when negated.
pub open spec fn neg_mark(negate: bool) -> Seq<char> {
    if negate {
        "!"@
    } else {
        ""@
    }
}

/// The relation of a size condition.
pub open spec fn rel_text(op: SizeOp) -> Seq<char> {
    match op {
        SizeOp::Less => "<"@,
        SizeOp::Greater => ">"@,
        SizeOp::Equal => "="@,
    }
}

/// How a condition is shown: its weight, then what it tests.
pub open spec fn cond_doc(c: ConditionModel) -> Seq<PieceModel>
    decreases c,
{
    match c {
        ConditionModel::Regex { pattern, negate, weight } => weight_doc(weight) + txt(
            (if negate {
                "NOT regex "@
            } else {
                "regex "@
            }) + debug_text(pattern),
        ),
        ConditionModel::Size { op, bytes, negate, weight } => weight_doc(weight) + txt(
            neg_mark(negate) + "size "@ + rel_text(op) + " "@ + decimal(bytes as nat) + " bytes"@,
        ),
        ConditionModel::Shell { cmd, negate, weight } => weight_doc(weight) + txt(
            neg_mark(negate) + "shell "@ + debug_text(cmd),
        ),
        ConditionModel::Variable { name, pattern, weight } => weight_doc(weight) + txt(
            "$"@ + name + " matches "@ + debug_text(pattern),
        ),
        ConditionModel::Subst { inner, negate } => txt(
            if negate {
                "NOT subst("@
            } else {
                "subst("@
            },
        ) + cond_doc(*inner) + txt(")"@),
    }
}

pub proof fn lemma_pieces_push(v: Seq<Piece>, p: Piece)
    ensures
        pieces_view(v.push(p)) == pieces_view(v).push(p@),
{
    assert(v.push(p).drop_last() =~= v);
}

pub proof fn lemma_doc_assoc(a: Seq<PieceModel>, b: Seq<PieceModel>, c: Seq<PieceModel>)
    ensures
        (a + b) + c == a + (b + c),
{
    assert((a + b) + c =~= a + (b + c));
}

/// Append `s` to a line being built.
fn put(v: &mut Vec<char>, s: &str)
    ensures
        final(v)@ == old(v)@ + s@,
{
    let c = chars_of(s);
    push_chars(v, c.as_slice());
}

/// Append `s` as `{:?}` shows it.
fn add_quoted(v: &mut Vec<char>, s: &str)
    ensures
        final(v)@ == old(v)@ + debug_text(s@),
{
    let q = quoted(s);
    put(v, q.as_str());
}

/// Append a piece of text.
fn push_text(out: &mut Vec<Piece>, v: &Vec<char>)
    ensures
        pieces_view(final(out)@) == pieces_view(old(out)@) + txt(v@),
{
    let s = string_from(v.as_slice());
    proof {
        lemma_pieces_push(out@, Piece::Text(s));
    }
    out.push(Piece::Text(s));
    assert(pieces_view(old(out)@).push(PieceModel::Text(v@)) =~= pieces_view(old(out)@) + txt(v@));
}

/// Append a condition's weight, when it has one.
fn push_weight(out: &mut Vec<Piece>, w: &Option<Weight>)
    ensures
        pieces_view(final(out)@) == pieces_view(old(out)@) + weight_doc(weight_model(*w)),
{
    match w {
        Some(w) => {
            let p = Piece::Weight(Weight { w: w.w.clone(), x: w.x.clone() });
            proof {
                lemma_pieces_push(out@, p);
            }
            out.push(p);
            assert(pieces_view(old(out)@).push(p@) =~= pieces_view(old(out)@) + weight_doc(
                weight_model(Some(*w)),
            ));
        },
        None => {
            assert(pieces_view(old(out)@) + weight_doc(weight_model(None)) =~= pieces_view(
                old(out)@,
            ));
        },
    }
}

/// Append how a condition is shown.
fn push_cond(out: &mut Vec<Piece>, c: &Condition)
    ensures
        pieces_view(final(out)@) == pieces_view(old(out)@) + cond_doc(c@),
    decreases c,
{
    let ghost start = pieces_view(out@);
    match c {
        Condition::Regex { pattern, negate, weight } => {
            push_weight(out, weight);
            let mut v: Vec<char> = Vec::new();
            if *negate {
                put(&mut v, "NOT regex ");
            } else {
                put(&mut v, "regex ");
            }
            add_quoted(&mut v, pattern.as_str());
            push_text(out, &v);
            proof {
                lemma_doc_assoc(start, weight_doc(weight_model(*weight)), txt(v@));
            }
        },
        Condition::Size { op, bytes, negate, weight } => {
            push_weight(out, weight);
            let mut v: Vec<char> = Vec::new();
            if *negate {
                put(&mut v, "!");
            } else {
                put(&mut v, "");
            }
            put(&mut v, "size ");
            match op {
                SizeOp::Less => put(&mut v, "<"),
                SizeOp::Greater => put(&mut v, ">"),
                SizeOp::Equal => put(&mut v, "="),
            }
            put(&mut v, " ");
            push_decimal(&mut v, *bytes);
            put(&mut v, " bytes");
            push_text(out, &v);
            proof {
                lemma_doc_assoc(start, weight_doc(weight_model(*weight)), txt(v@));
            }
        },
        Condition::Shell { cmd, negate, weight } => {
            push_weight(out, weight);
            let mut v: Vec<char> = Vec::new();
            if *negate {
                put(&mut v, "!");
            } else {
                put(&mut v, "");
            }
            put(&mut v, "shell ");
            add_quoted(&mut v, cmd.as_str());
            push_text(out, &v);
            proof {
                lemma_doc_assoc(start, weight_doc(weight_model(*weight)), txt(v@));
            }
        },
        Condition::Variable { name, pattern, weight } => {
            push_weight(out, weight);
            let mut v: Vec<char> = Vec::new();
            put(&mut v, "$");
            put(&mut v, name.as_str());
            put(&mut v, " matches ");
            add_quoted(&mut v, pattern.as_str());
            push_text(out, &v);
            proof {
                lemma_doc_assoc(start, weight_doc(weight_model(*weight)), txt(v@));
            }
        },
        Condition::Subst { inner, negate } => {
            let mut v: Vec<char> = Vec::new();
            if *negate {
                put(&mut v, "NOT subst(");
            } else {
                put(&mut v, "subst(");
            }
            push_text(out, &v);
            push_cond(out, &**inner);
            let close: Vec<char> = chars_of(")");
            push_text(out, &close);
            proof {
                let a = txt(v@);
                let b = cond_doc((**inner)@);
                lemma_doc_assoc(start, a, b);
                lemma_doc_assoc(start, a + b, txt(close@));
            }
        },
    }
}

/// How a condition is shown: its weight, if any, as a piece of its own,
/// then the kind of test, `!` or `NOT` when negated, and its argument
/// (patterns and commands as `{:?}` shows them).
pub fn fmt_cond(c: &Condition) -> (r: Vec<Piece>)
    ensures
        pieces_view(r@) == cond_doc(c@),
{
    let mut out: Vec<Piece> = Vec::new();
    push_cond(&mut out, c);
    assert(pieces_view(Seq::<Piece>::empty()) + cond_doc(c@) =~= cond_doc(c@));
    out
}

/// Two spaces for each level of nesting.
pub open spec fn indent(depth: nat) -> Seq<char>
    decreases depth,
{
    if depth == 0 {
        Seq::empty()
    } else {
        indent((depth - 1) as nat) + "  "@
    }
}

/// `true` or `false`.
pub open spec fn bool_text(b: bool) -> Seq<char> {
    if b {
        "true"@
    } else {
        "false"@
    }
}

/// Whether a recipe with this action delivers the message.
pub open spec fn delivering(a: Action) -> bool {
    match a {
        Action::Folder(_) => true,
        Action::Forward(_) => true,
        Action::Pipe { capture, .. } => capture is None,
        _ => false,
    }
}

/// The name of a header operation's kind.
pub open spec fn op_name(op: HeaderOpModel) -> Seq<char> {
    match op {
        HeaderOpModel::DeleteInsert { .. } => "DeleteInsert"@,
        HeaderOpModel::RenameInsert { .. } => "RenameInsert"@,
        HeaderOpModel::AddIfNot { .. } => "AddIfNot"@,
        HeaderOpModel::AddAlways { .. } => "AddAlways"@,
    }
}

/// A header operation as `{:?}` shows it: its kind, then its field and
/// value.
pub open spec fn op_debug(op: HeaderOpModel) -> Seq<char> {
    op_name(op) + " { field: "@ + debug_text(op_field(op)) + ", value: "@ + debug_text(op_value(op))
        + " }"@
}

/// The lock line of a recipe, if it names a lockfile.
pub open spec fn lock_doc(l: Option<String>, ind: Seq<char>) -> Seq<PieceModel> {
    match l {
        Some(l) => if l@.len() == 0 {
            txt(ind + "Lock: (auto)\n"@)
        } else {
            txt(ind + "Lock: "@ + l@ + "\n"@)
        },
        None => Seq::empty(),
    }
}

/// The numbered condition lines of a recipe.
pub open spec fn conds_doc(cs: Seq<Condition>, depth: nat) -> Seq<PieceModel>
    decreases cs.len(),
{
    if cs.len() == 0 {
        Seq::empty()
    } else {
        conds_doc(cs.drop_last(), depth) + txt(indent(depth) + "  "@ + decimal(cs.len()) + ". "@)
            + cond_doc(cs.last()@) + txt("\n"@)
    }
}

/// How an action is shown: where the message is delivered, piped or
/// forwarded, or the items of a nested block, one level deeper.
pub open spec fn action_doc(a: Action, depth: nat) -> Seq<PieceModel>
    decreases a, 0nat,
{
    match a {
        Action::Folder(ps) => txt(
            (if ends_with_char(ps@[0]@, '/') {
                "deliver to Maildir "@
            } else {
                "deliver to "@
            }) + joined(strings_view(ps@), " "@),
        ),
        Action::Pipe { cmd, capture } => match capture {
            Some(var) => txt("pipe to "@ + debug_text(cmd@) + ", capture to $"@ + var@),
            None => txt("pipe to "@ + debug_text(cmd@)),
        },
        Action::Forward(addrs) => txt("forward to "@ + joined(strings_view(addrs@), ", "@)),
        Action::Nested(items) => txt("nested block:\n"@) + items_doc(items@, depth + 1),
        Action::DupeCheck { maxlen, cache } => txt("@D "@ + maxlen@ + " "@ + cache@),
        Action::HeaderOp(op) => txt("header op "@ + op_debug(op@)),
    }
}

/// How a recipe is shown: its flags, its lockfile, whether it delivers,
/// its numbered conditions and its action.
pub open spec fn recipe_doc(r: Recipe, depth: nat) -> Seq<PieceModel>
    decreases r, 1nat,
{
    let ind = indent(depth);
    let flags = joined(flag_phrases(r.flags), ", "@);
    (if flags.len() > 0 {
        txt(ind + "Flags: "@ + flags + "\n"@)
    } else {
        Seq::empty()
    }) + lock_doc(r.lockfile, ind) + txt(
        ind + "Delivering: "@ + bool_text(delivering(r.action)) + "\n"@,
    ) + (if r.conds@.len() > 0 {
        txt(ind + "Conditions:\n"@) + conds_doc(r.conds@, depth)
    } else {
        Seq::empty()
    }) + txt(ind + "Action: "@) + action_doc(r.action, depth) + txt("\n"@)
}

/// How an item is shown: its number in three columns, its kind in
/// brackets, then what it says.
pub open spec fn item_doc(it: Item, num: nat, depth: nat) -> Seq<PieceModel>
    decreases it, 2nat,
{
    let head = indent(depth) + rjust(decimal(num), 3) + ". "@;
    match it {
        Item::Assign { name, value, .. } => if value@.len() == 0 {
            txt(head + "[UNSET] "@ + name@ + "\n"@)
        } else {
            txt(head + "[ASSIGN] "@ + name@ + " = "@ + debug_text(value@) + "\n"@)
        },
        Item::Recipe { recipe, .. } => txt(head + "[RECIPE]\n"@) + recipe_doc(recipe, depth + 1),
        Item::Subst { name, pattern, replace, global, case_insensitive, .. } => txt(
            head + "[SUBST] "@ + name@ + " =~ s/"@ + pattern@ + "/"@ + replace@ + "/"@ + subst_flags(
                global,
                case_insensitive,
            ) + "\n"@,
        ),
        Item::Include { path, .. } => txt(head + "[INCLUDERC] "@ + debug_text(path@) + "\n"@),
        Item::Switch { path, .. } => if path@.len() == 0 {
            txt(head + "[SWITCHRC] (abort)\n"@)
        } else {
            txt(head + "[SWITCHRC] "@ + debug_text(path@) + "\n"@)
        },
    }
}

/// The items of a block, numbered from 1.
pub open spec fn items_doc(v: Seq<Item>, depth: nat) -> Seq<PieceModel>
    decreases v, 3nat,
{
    if v.len() == 0 {
        Seq::empty()
    } else {
        items_doc(v.drop_last(), depth) + item_doc(v.last(), v.len(), depth)
    }
}

/// What the dump can show: no folder action without a folder, and
/// nesting that leaves the depth countable.
pub open spec fn printable_action(a: Action, depth: nat) -> bool
    decreases a, 0nat,
{
    match a {
        Action::Folder(ps) => ps@.len() > 0,
        Action::Nested(items) => depth < usize::MAX && printable_items(items@, depth + 1),
        _ => true,
    }
}

pub open spec fn printable_recipe(r: Recipe, depth: nat) -> bool
    decreases r, 1nat,
{
    printable_action(r.action, depth)
}

pub open spec fn printable_item(it: Item, depth: nat) -> bool
    decreases it, 2nat,
{
    match it {
        Item::Recipe { recipe, .. } => depth < usize::MAX && printable_recipe(recipe, depth + 1),
        _ => true,
    }
}

pub open spec fn printable_items(v: Seq<Item>, depth: nat) -> bool
    decreases v, 3nat,
{
    if v.len() == 0 {
        true
    } else {
        printable_items(v.drop_last(), depth) && printable_item(v.last(), depth)
    }
}

pub proof fn lemma_printable_items(v: Seq<Item>, depth: nat, i: int)
    requires
        printable_items(v, depth),
        0 <= i < v.len(),
    ensures
        printable_item(v[i], depth),
    decreases v.len(),
{
    if i < v.len() - 1 {
        lemma_printable_items(v.drop_last(), depth, i);
    }
}

/// Append `depth` levels of indentation.
fn push_indent(v: &mut Vec<char>, depth: usize)
    ensures
        final(v)@ == old(v)@ + indent(depth as nat),
{
    let mut i: usize = 0;
    while i < depth
        invariant
            i <= depth,
            v@ == old(v)@ + indent(i as nat),
        decreases depth - i,
    {
        put(v, "  ");
        assert(v@ =~= old(v)@ + indent((i + 1) as nat));
        i = i + 1;
    }
}

/// Append `parts` joined with `sep`.
fn push_join(v: &mut Vec<char>, parts: &Vec<String>, sep: &str)
    ensures
        final(v)@ == old(v)@ + joined(strings_view(parts@), sep@),
{
    reveal(joined);
    let n = parts.len();
    let mut i: usize = 0;
    assert(strings_view(parts@.take(0)) =~= Seq::<Seq<char>>::empty());
    assert(v@ =~= old(v)@ + joined(strings_view(parts@.take(0)), sep@));
    while i < n
        invariant
            i <= n,
            n == parts@.len(),
            v@ == old(v)@ + joined(strings_view(parts@.take(i as int)), sep@),
        decreases n - i,
    {
        reveal(joined);
        let ghost before = strings_view(parts@.take(i as int));
        let ghost after = strings_view(parts@.take(i + 1));
        assert(after =~= before.push(parts@[i as int]@));
        assert(after.drop_last() =~= before);
        assert(after.len() == i + 1);
        assert(after.last() == parts@[i as int]@);
        if i > 0 {
            put(v, sep);
        }
        put(v, parts[i].as_str());
        if i == 0 {
            assert(joined(after, sep@) == parts@[i as int]@);
            assert(v@ =~= old(v)@ + joined(after, sep@));
        } else {
            assert(joined(after, sep@) == joined(before, sep@) + sep@ + parts@[i as int]@);
            assert(v@ =~= old(v)@ + joined(after, sep@));
        }
        i = i + 1;
    }
    assert(parts@.take(n as int) =~= parts@);
}

/// Append the numbered condition lines of a recipe.
fn push_conds(out: &mut Vec<Piece>, conds: &Vec<Condition>, depth: usize)
    ensures
        pieces_view(final(out)@) == pieces_view(old(out)@) + conds_doc(conds@, depth as nat),
{
    let n = conds.len();
    let mut i: usize = 0;
    assert(conds@.take(0) =~= Seq::<Condition>::empty());
    assert(pieces_view(out@) =~= pieces_view(old(out)@) + conds_doc(conds@.take(0), depth as nat));
    while i < n
        invariant
            i <= n,
            n == conds@.len(),
            pieces_view(out@) == pieces_view(old(out)@) + conds_doc(conds@.take(i as int), depth as nat),
        decreases n - i,
    {
        let mut v: Vec<char> = Vec::new();
        push_indent(&mut v, depth);
        put(&mut v, "  ");
        push_decimal(&mut v, (i + 1) as u64);
        put(&mut v, ". ");
        push_text(out, &v);
        push_cond(out, &conds[i]);
        let nl: Vec<char> = chars_of("\n");
        push_text(out, &nl);
        proof {
            let t = conds@.take(i + 1);
            assert(t.drop_last() =~= conds@.take(i as int));
            assert(t.last() == conds@[i as int]);
            assert(v@ =~= indent(depth as nat) + "  "@ + decimal(t.len()) + ". "@);
            let p = conds_doc(conds@.take(i as int), depth as nat);
            let a = txt(v@);
            let b = cond_doc(conds@[i as int]@);
            let c = txt(nl@);
            assert(conds_doc(t, depth as nat) == p + a + b + c);
            assert(pieces_view(out@) == pieces_view(old(out)@) + p + a + b + c);
            assert(pieces_view(old(out)@) + p + a + b + c =~= pieces_view(old(out)@) + (p + a + b + c));
        }
        i = i + 1;
    }
    assert(conds@.take(n as int) =~= conds@);
}

/// Append how an action is shown.
fn push_action(out: &mut Vec<Piece>, a: &Action, depth: usize)
    requires
        printable_action(*a, depth as nat),
    ensures
        pieces_view(final(out)@) == pieces_view(old(out)@) + action_doc(*a, depth as nat),
    decreases a, 0nat,
{
    match a {
        Action::Folder(ps) => {
            let first = chars_of(ps[0].as_str());
            let maildir = first.len() > 0 && first[first.len() - 1] == '/';
            let mut v: Vec<char> = Vec::new();
            if maildir {
                put(&mut v, "deliver to Maildir ");
            } else {
                put(&mut v, "deliver to ");
            }
            assert(maildir == ends_with_char(ps@[0]@, '/'));
            push_join(&mut v, ps, " ");
            assert(v@ =~= (if maildir {
                "deliver to Maildir "@
            } else {
                "deliver to "@
            }) + joined(strings_view(ps@), " "@));
            push_text(out, &v);
        },
        Action::Pipe { cmd, capture } => {
            let mut v: Vec<char> = Vec::new();
            put(&mut v, "pipe to ");
            add_quoted(&mut v, cmd.as_str());
            match capture {
                Some(var) => {
                    put(&mut v, ", capture to $");
                    put(&mut v, var.as_str());
                },
                None => {},
            }
            push_text(out, &v);
        },
        Action::Forward(addrs) => {
            let mut v: Vec<char> = Vec::new();
            put(&mut v, "forward to ");
            push_join(&mut v, addrs, ", ");
            push_text(out, &v);
        },
        Action::Nested(items) => {
            let mut v: Vec<char> = Vec::new();
            put(&mut v, "nested block:\n");
            push_text(out, &v);
            let d = depth + 1;
            let n = items.len();
            let mut i: usize = 0;
            assert(items@.take(0) =~= Seq::<Item>::empty());
            while i < n
                invariant
                    i <= n,
                    n == items@.len(),
                    d == depth + 1,
                    *a == Action::Nested(*items),
                    printable_items(items@, d as nat),
                    pieces_view(out@) == pieces_view(old(out)@) + txt(v@) + items_doc(
                        items@.take(i as int),
                        d as nat,
                    ),
                decreases n - i,
            {
                proof {
                    lemma_printable_items(items@, d as nat, i as int);
                    assert(decreases_to!(*a => a->Nested_0));
                    assert(decreases_to!(*items => items@));
                    assert(decreases_to!(items@ => items@[i as int]));
                }
                push_item(out, &items[i], i + 1, d);
                proof {
                    let t = items@.take(i + 1);
                    assert(t.drop_last() =~= items@.take(i as int));
                    assert(t.last() == items@[i as int]);
                    lemma_doc_assoc(
                        pieces_view(old(out)@) + txt(v@),
                        items_doc(items@.take(i as int), d as nat),
                        item_doc(items@[i as int], (i + 1) as nat, d as nat),
                    );
                }
                i = i + 1;
            }
            assert(items@.take(n as int) =~= items@);
            proof {
                lemma_doc_assoc(pieces_view(old(out)@), txt(v@), items_doc(items@, d as nat));
            }
        },
        Action::DupeCheck { maxlen, cache } => {
            let mut v: Vec<char> = Vec::new();
            put(&mut v, "@D ");
            put(&mut v, maxlen.as_str());
            put(&mut v, " ");
            put(&mut v, cache.as_str());
            push_text(out, &v);
        },
        Action::HeaderOp(op) => {
            let mut v: Vec<char> = Vec::new();
            put(&mut v, "header op ");
            match op {
                HeaderOp::DeleteInsert { .. } => put(&mut v, "DeleteInsert"),
                HeaderOp::RenameInsert { .. } => put(&mut v, "RenameInsert"),
                HeaderOp::AddIfNot { .. } => put(&mut v, "AddIfNot"),
                HeaderOp::AddAlways { .. } => put(&mut v, "AddAlways"),
            }
            assert(v@ =~= "header op "@ + op_name(op@));
            put(&mut v, " { field: ");
            add_quoted(&mut v, op.field());
            put(&mut v, ", value: ");
            add_quoted(&mut v, op.value());
            put(&mut v, " }");
            assert(v@ =~= "header op "@ + op_debug(op@));
            push_text(out, &v);
        },
    }
}

/// Append how an item is shown.
fn push_item(out: &mut Vec<Piece>, item: &Item, num: usize, depth: usize)
    requires
        printable_item(*item, depth as nat),
    ensures
        pieces_view(final(out)@) == pieces_view(old(out)@) + item_doc(*item, num as nat, depth as nat),
    decreases item, 2nat,
{
    let mut v: Vec<char> = Vec::new();
    push_indent(&mut v, depth);
    push_number(&mut v, num as u64, 3);
    put(&mut v, ". ");
    assert(v@ =~= indent(depth as nat) + rjust(decimal(num as nat), 3) + ". "@);
    match item {
        Item::Assign { name, value, .. } => {
            let vc = chars_of(value.as_str());
            if vc.len() == 0 {
                put(&mut v, "[UNSET] ");
                put(&mut v, name.as_str());
            } else {
                put(&mut v, "[ASSIGN] ");
                put(&mut v, name.as_str());
                put(&mut v, " = ");
                add_quoted(&mut v, value.as_str());
            }
            put(&mut v, "\n");
            push_text(out, &v);
        },
        Item::Recipe { recipe, .. } => {
            put(&mut v, "[RECIPE]\n");
            push_text(out, &v);
            fmt_recipe(out, recipe, depth + 1);
            proof {
                lemma_doc_assoc(pieces_view(old(out)@), txt(v@), recipe_doc(*recipe, (depth + 1) as nat));
            }
        },
        Item::Subst { name, pattern, replace, global, case_insensitive, .. } => {
            put(&mut v, "[SUBST] ");
            put(&mut v, name.as_str());
            put(&mut v, " =~ s/");
            put(&mut v, pattern.as_str());
            put(&mut v, "/");
            put(&mut v, replace.as_str());
            put(&mut v, "/");
            put(&mut v, fmt_subst_flags(*global, *case_insensitive));
            put(&mut v, "\n");
            push_text(out, &v);
        },
        Item::Include { path, .. } => {
            put(&mut v, "[INCLUDERC] ");
            add_quoted(&mut v, path.as_str());
            put(&mut v, "\n");
            push_text(out, &v);
        },
        Item::Switch { path, .. } => {
            let pc = chars_of(path.as_str());
            if pc.len() == 0 {
                put(&mut v, "[SWITCHRC] (abort)\n");
            } else {
                put(&mut v, "[SWITCHRC] ");
                add_quoted(&mut v, path.as_str());
                put(&mut v, "\n");
            }
            push_text(out, &v);
        },
    }
}

/// Append how a recipe is shown, at `depth` levels of indentation: its
/// flags, its lockfile (`(auto)` when unnamed), whether it delivers, its
/// numbered conditions and its action.
pub fn fmt_recipe(out: &mut Vec<Piece>, r: &Recipe, depth: usize)
    requires
        printable_recipe(*r, depth as nat),
    ensures
        pieces_view(final(out)@) == pieces_view(old(out)@) + recipe_doc(*r, depth as nat),
    decreases r, 1nat,
{
    let ghost start = pieces_view(out@);
    let ghost ind = indent(depth as nat);
    let ghost mut doc: Seq<PieceModel> = Seq::empty();
    assert(start + doc =~= start);
    let flags = fmt_flags(&r.flags);
    let fc = chars_of(flags.as_str());
    if fc.len() > 0 {
        let mut v: Vec<char> = Vec::new();
        push_indent(&mut v, depth);
        put(&mut v, "Flags: ");
        push_chars(&mut v, fc.as_slice());
        put(&mut v, "\n");
        push_text(out, &v);
        proof {
            lemma_doc_assoc(start, doc, txt(v@));
            assert(v@ =~= ind + "Flags: "@ + joined(flag_phrases(r.flags), ", "@) + "\n"@);
            assert(doc + txt(v@) =~= txt(v@));
            doc = txt(v@);
        }
    }
    let ghost d1 = doc;
    match &r.lockfile {
        Some(l) => {
            let lc = chars_of(l.as_str());
            let mut v: Vec<char> = Vec::new();
            push_indent(&mut v, depth);
            if lc.len() == 0 {
                put(&mut v, "Lock: (auto)\n");
            } else {
                put(&mut v, "Lock: ");
                put(&mut v, l.as_str());
                put(&mut v, "\n");
            }
            push_text(out, &v);
            proof {
                lemma_doc_assoc(start, doc, txt(v@));
                doc = doc + txt(v@);
            }
        },
        None => {
            assert(doc + lock_doc(r.lockfile, ind) =~= doc);
        },
    }
    assert(doc == d1 + lock_doc(r.lockfile, ind));
    assert(pieces_view(out@) == start + doc);
    let mut v: Vec<char> = Vec::new();
    push_indent(&mut v, depth);
    put(&mut v, "Delivering: ");
    if r.is_delivering() {
        put(&mut v, "true");
    } else {
        put(&mut v, "false");
    }
    put(&mut v, "\n");
    push_text(out, &v);
    proof {
        lemma_doc_assoc(start, doc, txt(v@));
        doc = doc + txt(v@);
    }
    if r.conds.len() > 0 {
        let mut w: Vec<char> = Vec::new();
        push_indent(&mut w, depth);
        put(&mut w, "Conditions:\n");
        push_text(out, &w);
        push_conds(out, &r.conds, depth);
        proof {
            lemma_doc_assoc(start, doc, txt(w@));
            lemma_doc_assoc(start, doc + txt(w@), conds_doc(r.conds@, depth as nat));
            lemma_doc_assoc(doc, txt(w@), conds_doc(r.conds@, depth as nat));
            doc = doc + (txt(w@) + conds_doc(r.conds@, depth as nat));
        }
    } else {
        assert(doc + Seq::<PieceModel>::empty() =~= doc);
    }
    let mut u: Vec<char> = Vec::new();
    push_indent(&mut u, depth);
    put(&mut u, "Action: ");
    push_text(out, &u);
    push_action(out, &r.action, depth);
    let nl: Vec<char> = chars_of("\n");
    push_text(out, &nl);
    proof {
        lemma_doc_assoc(start, doc, txt(u@));
        lemma_doc_assoc(start, doc + txt(u@), action_doc(r.action, depth as nat));
        lemma_doc_assoc(start, doc + txt(u@) + action_doc(r.action, depth as nat), txt(nl@));
        doc = doc + txt(u@) + action_doc(r.action, depth as nat) + txt(nl@);
        assert(doc == recipe_doc(*r, depth as nat));
    }
}

/// How an action is shown: `deliver to` the folders (`Maildir` when the
/// first ends in `/`), `pipe to` the command (and the variable that
/// captures its output), `forward to` the addresses, the duplicate check,
/// the header operation, or a nested block's items one level deeper.
pub fn fmt_action(a: &Action, depth: usize) -> (r: Vec<Piece>)
    requires
        printable_action(*a, depth as nat),
    ensures
        pieces_view(r@) == action_doc(*a, depth as nat),
{
    let mut out: Vec<Piece> = Vec::new();
    push_action(&mut out, a, depth);
    assert(pieces_view(Seq::<Piece>::empty()) + action_doc(*a, depth as nat) =~= action_doc(
        *a,
        depth as nat,
    ));
    out
}

/// How an item is shown, as item `num` at `depth` levels of indentation:
/// its number in three columns, its kind in brackets (`ASSIGN`, `UNSET`,
/// `SUBST`, `RECIPE`, `INCLUDERC`, `SWITCHRC`) and what it holds.
pub fn fmt_item_str(item: &Item, num: usize, depth: usize) -> (r: Vec<Piece>)
    requires
        printable_item(*item, depth as nat),
    ensures
        pieces_view(r@) == item_doc(*item, num as nat, depth as nat),
{
    let mut out: Vec<Piece> = Vec::new();
    push_item(&mut out, item, num, depth);
    assert(pieces_view(Seq::<Piece>::empty()) + item_doc(*item, num as nat, depth as nat)
        =~= item_doc(*item, num as nat, depth as nat));
    out
}

/// The items of an rcfile, each shown as its number says and followed by
/// an empty line.
pub open spec fn lines_doc(v: Seq<Item>) -> Seq<PieceModel>
    decreases v.len(),
{
    if v.len() == 0 {
        Seq::empty()
    } else {
        lines_doc(v.drop_last()) + item_doc(v.last(), v.len(), 0) + txt("\n"@)
    }
}

/// The dump of an rcfile: how many items were parsed from it, then each
/// item.
pub open spec fn listing_doc(items: Seq<Item>, path: Seq<char>) -> Seq<PieceModel> {
    txt("Parsed "@ + decimal(items.len()) + " items from "@ + path + "\n\n"@) + lines_doc(items)
}

/// Lay out the dump of the items parsed from the rcfile at `path`: a line
/// that counts them, an empty line, then each item and an empty line.
pub fn dump_items(items: &[Item], path: &str) -> (r: Vec<Piece>)
    requires
        printable_items(items@, 0),
    ensures
        pieces_view(r@) == listing_doc(items@, path@),
{
    let n = items.len();
    let mut out: Vec<Piece> = Vec::new();
    let mut v: Vec<char> = Vec::new();
    put(&mut v, "Parsed ");
    push_decimal(&mut v, n as u64);
    put(&mut v, " items from ");
    put(&mut v, path);
    put(&mut v, "\n\n");
    push_text(&mut out, &v);
    let ghost head = txt(v@);
    assert(pieces_view(out@) =~= head);
    let mut i: usize = 0;
    assert(items@.take(0) =~= Seq::<Item>::empty());
    while i < n
        invariant
            i <= n,
            n == items@.len(),
            printable_items(items@, 0),
            pieces_view(out@) == head + lines_doc(items@.take(i as int)),
        decreases n - i,
    {
        proof {
            lemma_printable_items(items@, 0, i as int);
        }
        push_item(&mut out, &items[i], i + 1, 0);
        let nl: Vec<char> = chars_of("\n");
        push_text(&mut out, &nl);
        proof {
            let t = items@.take(i + 1);
            assert(t.drop_last() =~= items@.take(i as int));
            assert(t.last() == items@[i as int]);
            let p = lines_doc(items@.take(i as int));
            let b = item_doc(items@[i as int], (i + 1) as nat, 0);
            assert(lines_doc(t) == p + b + txt(nl@));
            assert(head + p + b + txt(nl@) =~= head + (p + b + txt(nl@)));
        }
        i = i + 1;
    }
    assert(items@.take(n as int) =~= items@);
    assert(v@ =~= "Parsed "@ + decimal(items@.len()) + " items from "@ + path@ + "\n\n"@);
    out
}

/// Whether an action can be shown at `depth`.
fn action_printable(a: &Action, depth: usize) -> (b: bool)
    ensures
        b == printable_action(*a, depth as nat),
    decreases a, 0nat,
{
    match a {
        Action::Folder(ps) => ps.len() > 0,
        Action::Nested(items) => {
            if depth == usize::MAX {
                return false;
            }
            let d = depth + 1;
            let n = items.len();
            let mut i: usize = 0;
            assert(items@.take(0) =~= Seq::<Item>::empty());
            while i < n
                invariant
                    i <= n,
                    n == items@.len(),
                    d == depth + 1,
                    *a == Action::Nested(*items),
                    printable_items(items@.take(i as int), d as nat),
                decreases n - i,
            {
                proof {
                    assert(decreases_to!(*a => a->Nested_0));
                    assert(decreases_to!(*items => items@));
                    assert(decreases_to!(items@ => items@[i as int]));
                }
                let ok = item_printable(&items[i], d);
                let ghost t = items@.take(i + 1);
                assert(t.drop_last() =~= items@.take(i as int));
                assert(t.last() == items@[i as int]);
                if !ok {
                    proof {
                        assert(!printable_items(t, d as nat));
                        lemma_printable_prefix(items@, d as nat, i + 1);
                    }
                    return false;
                }
                i = i + 1;
            }
            assert(items@.take(n as int) =~= items@);
            true
        },
        _ => true,
    }
}

/// Whether an item can be shown at `depth`.
fn item_printable(it: &Item, depth: usize) -> (b: bool)
    ensures
        b == printable_item(*it, depth as nat),
    decreases it, 2nat,
{
    match it {
        Item::Recipe { recipe, .. } => {
            if depth == usize::MAX {
                false
            } else {
                action_printable(&recipe.action, depth + 1)
            }
        },
        _ => true,
    }
}

/// Each prefix of a printable sequence of items is printable.
pub proof fn lemma_printable_prefix(v: Seq<Item>, depth: nat, k: int)
    requires
        0 <= k <= v.len(),
    ensures
        printable_items(v, depth) ==> printable_items(v.take(k), depth),
    decreases v.len() - k,
{
    if k < v.len() {
        lemma_printable_prefix(v, depth, k + 1);
        assert(v.take(k + 1).drop_last() =~= v.take(k));
    } else {
        assert(v.take(k) =~= v);
    }
}

/// Whether the dump can show these items: every folder action names a
/// folder, and blocks nest no deeper than a `usize` counts.
pub fn printable(items: &[Item]) -> (b: bool)
    ensures
        b == printable_items(items@, 0),
{
    let n = items.len();
    let mut i: usize = 0;
    assert(items@.take(0) =~= Seq::<Item>::empty());
    while i < n
        invariant
            i <= n,
            n == items@.len(),
            printable_items(items@.take(i as int), 0),
        decreases n - i,
    {
        let ok = item_printable(&items[i], 0);
        let ghost t = items@.take(i + 1);
        assert(t.drop_last() =~= items@.take(i as int));
        assert(t.last() == items@[i as int]);
        if !ok {
            proof {
                assert(!printable_items(t, 0));
                lemma_printable_prefix(items@, 0, i + 1);
            }
            return false;
        }
        i = i + 1;
    }
    assert(items@.take(n as int) =~= items@);
    true
}

} // verus!
