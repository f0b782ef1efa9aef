//! The decisions of recipe evaluation: which recipes the chain flags let
//! run, what they leave for the next ones, what an action or an included
//! rcfile comes to, and how a header operation edits the header.

use vstd::prelude::*;
use vstd::slice::slice_subrange;
use vstd::utf8::encode_utf8;

use crate::config::{op_field, Flags, HeaderOp, HeaderOpModel, SizeOp};
use crate::delivery::{folder_of, FolderType};
use crate::field::{
    any_match, flat, keep_unmatched, parse_bytes, parsed_fields, prepended_old, prepending_fits,
    select, FieldModel,
};
use crate::formail::headers::{parts_field, push_fits, push_parts};
use crate::mailstat::report::{push_chars, push_number, push_repeat, repeat, rjust};
use crate::num::decimal;
use crate::text::{chars_of, string_from};

mod step;
pub use step::{
    after_action, after_of, item_step, items_done, octal_digits, octal_of, octal_value, shift_count,
    side_effect, side_effect_of, step_of, ActionResult, EffectModel, EngineState, SideEffect, Step,
};

verus! {

/// INCLUDERC and SWITCHRC nest this deep at most.
pub const MAX_INCLUDE_DEPTH: usize = 32;

/// Result of processing recipes.
#[derive(Debug, Clone, PartialEq, Eq)]
pub enum Outcome {
    /// Message was delivered (to folder, pipe, or forward).
    Delivered(String),
    /// No recipe matched; use default delivery.
    Default,
    /// Processing should continue (copy flag was set).
    Continue,
}

/// Mutable state during recipe processing.
#[derive(Debug, Clone, Copy, Default, PartialEq, Eq, Structural)]
pub struct State {
    /// Last condition result (for A flag).
    pub last_cond: bool,
    /// Last action succeeded (for a flag).
    pub last_succ: bool,
    /// Previous condition (for E flag).
    pub prev_cond: bool,
    /// Current INCLUDERC/SWITCHRC recursion depth.
    pub depth: usize,
}

/// Whether a recipe's chain flags let it run: `A` needs the last
/// condition to have matched, `a` that and the action to have succeeded,
/// `E` the previous condition not to have matched, `e` it to have matched
/// and the action to have failed.
pub open spec fn chain_allows(flags: Flags, state: State) -> bool {
    &&& !(flags.chain && !state.last_cond)
    &&& !(flags.succ && !(state.last_cond && state.last_succ))
    &&& !(flags.else_ && state.prev_cond)
    &&& !(flags.err && (!state.prev_cond || state.last_succ))
}

/// What each chain flag demands of the recipes before: `A` runs only
/// after a matching condition; `a` only after a matching condition whose
/// action succeeded; `E` only after a condition that did not match; `e`
/// only after a matching condition whose action failed; a recipe with
/// none of these flags always may run, and one whose demands are met may.
pub proof fn law_chain_flags(flags: Flags, state: State)
    ensures
        flags.chain && !state.last_cond ==> !chain_allows(flags, state),
        flags.succ && !state.last_cond ==> !chain_allows(flags, state),
        flags.succ && !state.last_succ ==> !chain_allows(flags, state),
        flags.else_ && state.prev_cond ==> !chain_allows(flags, state),
        flags.err && !state.prev_cond ==> !chain_allows(flags, state),
        flags.err && state.last_succ ==> !chain_allows(flags, state),
        (!flags.chain || state.last_cond) && (!flags.succ || (state.last_cond && state.last_succ)) && (
        !flags.else_ || !state.prev_cond) && (!flags.err || (state.prev_cond && !state.last_succ))
            ==> chain_allows(flags, state),
{
}

/// Check if chain flags allow this recipe to run.
pub fn check_chain_flags(flags: &Flags, state: &State) -> (b: bool)
    ensures
        b == chain_allows(*flags, *state),
{
    if flags.chain && !state.last_cond {
        return false;
    }
    if flags.succ && !(state.last_cond && state.last_succ) {
        return false;
    }
    if flags.else_ && state.prev_cond {
        return false;
    }
    if flags.err && (!state.prev_cond || state.last_succ) {
        return false;
    }
    true
}

impl State {
    /// Record a recipe's conditions: a recipe without `A` or `a` sets the
    /// last condition, one without `E` the previous condition.
    pub fn after_conditions(&mut self, flags: &Flags, matched: bool)
        ensures
            final(self).last_cond == if !flags.chain && !flags.succ {
                matched
            } else {
                old(self).last_cond
            },
            final(self).prev_cond == if !flags.else_ {
                matched
            } else {
                old(self).prev_cond
            },
            final(self).last_succ == old(self).last_succ,
            final(self).depth == old(self).depth,
    {
        if !flags.chain && !flags.succ {
            self.last_cond = matched;
        }
        if !flags.else_ {
            self.prev_cond = matched;
        }
    }

    /// Record a recipe's action: it succeeded when it delivered or let
    /// processing go on.
    pub fn after_action(&mut self, result: &Outcome)
        ensures
            final(self).last_succ == (result is Delivered || result is Continue),
            final(self).last_cond == old(self).last_cond,
            final(self).prev_cond == old(self).prev_cond,
            final(self).depth == old(self).depth,
    {
        self.last_succ = match result {
            Outcome::Delivered(_) | Outcome::Continue => true,
            Outcome::Default => false,
        };
    }
}

/// What a recipe's action comes to: with the copy flag a delivery lets
/// processing go on; anything else stands.
pub fn recipe_outcome(result: Outcome, copy: bool) -> (r: Outcome)
    ensures
        r == if copy && result is Delivered {
            Outcome::Continue
        } else {
            result
        },
{
    match result {
        Outcome::Delivered(f) => if copy {
            Outcome::Continue
        } else {
            Outcome::Delivered(f)
        },
        other => other,
    }
}

/// What an rcfile's outcome means where it was named: a SWITCHRC passes
/// it on; an INCLUDERC ends processing only with a delivery.
pub fn rcfile_outcome(outcome: Outcome, switch: bool) -> (r: Option<Outcome>)
    ensures
        r == if switch || outcome is Delivered {
            Some(outcome)
        } else {
            None
        },
{
    if switch {
        return Some(outcome);
    }
    match outcome {
        Outcome::Delivered(f) => Some(Outcome::Delivered(f)),
        _ => None,
    }
}

/// Whether a size condition holds of a message of `size` bytes.
pub open spec fn size_holds(op: SizeOp, bytes: u64, negate: bool, size: u64) -> bool {
    (match op {
        SizeOp::Less => size < bytes,
        SizeOp::Equal => size == bytes,
        SizeOp::Greater => size > bytes,
    }) != negate
}

/// Evaluate a size condition (`< n` or `> n`, maybe negated).
pub fn size_matches(op: SizeOp, bytes: u64, negate: bool, size: u64) -> (b: bool)
    ensures
        b == size_holds(op, bytes, negate, size),
{
    let m = match op {
        SizeOp::Less => size < bytes,
        SizeOp::Equal => size == bytes,
        SizeOp::Greater => size > bytes,
    };
    m != negate
}

/// The lockfile that a bare `:` gives a recipe that delivers to `folder`
/// (expanded): the folder and the lock extension, when the folder is of
/// a type that needs locking (a plain path needs it whether it names a
/// file or a directory).
pub fn auto_lockfile(folder: &str, lockext: &str) -> (r: Option<String>)
    ensures
        r is Some <==> (folder_of(folder@, false).0 == FolderType::File || folder_of(
            folder@,
            false,
        ).0 == FolderType::Dir),
        r matches Some(s) ==> s@ == folder@ + lockext@,
{
    let (ft, _) = FolderType::parse(folder, false);
    if !ft.needs_lock() {
        return None;
    }
    let mut v = chars_of(folder);
    let mut e = chars_of(lockext);
    v.append(&mut e);
    Some(string_from(v.as_slice()))
}

/// The field name that a header operation works on, in bytes.
pub open spec fn op_name(op: HeaderOpModel) -> Seq<u8> {
    encode_utf8(op_field(op))
}

/// The fields once a header operation is applied, `value` being its
/// value once expanded: `@I` removes the fields of the name and adds the
/// value unless it is empty; `@i` renames them to `Old-` and adds it;
/// `@a` adds it when no field of the name is there; `@A` adds it.
pub open spec fn edited_fields(op: HeaderOpModel, value: Seq<u8>, fields: Seq<FieldModel>) -> Seq<FieldModel> {
    let name = op_name(op);
    match op {
        HeaderOpModel::DeleteInsert { .. } => {
            let kept = select(fields, keep_unmatched(fields, name));
            if value.len() > 0 {
                kept.push(parts_field(name, value))
            } else {
                kept
            }
        },
        HeaderOpModel::RenameInsert { .. } => prepended_old(fields, name).push(parts_field(name, value)),
        HeaderOpModel::AddIfNot { .. } => if any_match(fields, name) {
            fields
        } else {
            fields.push(parts_field(name, value))
        },
        HeaderOpModel::AddAlways { .. } => fields.push(parts_field(name, value)),
    }
}

/// The edited fields fit in memory.
pub open spec fn edit_fits(op: HeaderOpModel, value: Seq<u8>, fields: Seq<FieldModel>) -> bool {
    let name = op_name(op);
    match op {
        HeaderOpModel::DeleteInsert { .. } => push_fits(select(fields, keep_unmatched(fields, name)), name, value),
        HeaderOpModel::RenameInsert { .. } => prepending_fits(fields, name) && push_fits(
            prepended_old(fields, name),
            name,
            value,
        ),
        _ => push_fits(fields, name, value),
    }
}

/// Apply `@X Field: value` to a header, `value` being the operation's
/// value once expanded; the new header's bytes.
pub fn edit_header(op: &HeaderOp, value: &[u8], header: &[u8]) -> (r: Vec<u8>)
    requires
        header@.len() + 1 <= usize::MAX,
        edit_fits(op@, value@, parsed_fields(header@)),
    ensures
        r@ == flat(edited_fields(op@, value@, parsed_fields(header@))),
{
    let pat = op.field().as_bytes();
    assert(pat@ == op_name(op@));
    let mut fields = parse_bytes(header);
    match op {
        HeaderOp::DeleteInsert { .. } => {
            fields.remove_all(pat);
            if value.len() > 0 {
                push_parts(&mut fields, pat, value);
            }
        },
        HeaderOp::RenameInsert { .. } => {
            fields.prepend_old(pat);
            push_parts(&mut fields, pat, value);
        },
        HeaderOp::AddIfNot { .. } => {
            if fields.find(pat).is_none() {
                push_parts(&mut fields, pat, value);
            }
        },
        HeaderOp::AddAlways { .. } => {
            push_parts(&mut fields, pat, value);
        },
    }
    let mut out: Vec<u8> = Vec::new();
    let _ = fields.write_to(&mut out);
    assert(out@ =~= flat(fields@));
    out
}

/// `From ` as bytes.
pub open spec fn from_prefix() -> Seq<u8> {
    seq![70u8, 114u8, 111u8, 109u8, 32u8]
}

/// A message without its mbox `From ` line, if it has one that ends.
pub open spec fn without_from_line(d: Seq<u8>) -> Seq<u8> {
    if d.len() >= 5 && d.take(5) == from_prefix() && d.contains(10u8) {
        d.skip(d.index_of_first(10u8).unwrap() + 1)
    } else {
        d
    }
}

/// Skip mbox From_ line if present.
pub fn skip_from_line(data: &[u8]) -> (r: &[u8])
    ensures
        r@ == without_from_line(data@),
{
    let n = data.len();
    if n >= 5 && data[0] == 70u8 && data[1] == 114u8 && data[2] == 111u8 && data[3] == 109u8
        && data[4] == 32u8 {
        assert(data@.take(5) =~= from_prefix());
        let mut i: usize = 0;
        while i < n
            invariant
                i <= n == data@.len(),
                n >= 5,
                data@.take(5) == from_prefix(),
                forall|k: int| 0 <= k < i ==> data@[k] != 10u8,
            decreases n - i,
        {
            if data[i] == 10u8 {
                proof {
                    assert(data@.contains(10u8)) by {
                        assert(data@[i as int] == 10u8);
                    }
                    data@.index_of_first_ensures(10u8);
                    let f = data@.index_of_first(10u8).unwrap();
                    assert(f == i) by {
                        if f < i {
                            assert(data@[f] != 10u8);
                        }
                    }
                }
                let r = slice_subrange(data, i + 1, n);
                assert(r@ =~= data@.skip(i + 1));
                return r;
            }
            i += 1;
        }
        assert(!data@.contains(10u8));
    } else {
        if n >= 5 {
            assert(data@.take(5) != from_prefix()) by {
                if data@.take(5) == from_prefix() {
                    assert(data@.take(5)[0] == data@[0]);
                    assert(data@.take(5)[1] == data@[1]);
                    assert(data@.take(5)[2] == data@[2]);
                    assert(data@.take(5)[3] == data@[3]);
                    assert(data@.take(5)[4] == data@[4]);
                }
            }
        }
    }
    data
}

/// What `regex::RegexBuilder` (case-blind when `ci`) and `Regex::replace`
/// give: `text` with the leftmost match of `pattern` replaced by
/// `replacement`; `None` when the pattern does not compile.
pub uninterp spec fn regex_first_replaced(pattern: Seq<char>, ci: bool, text: Seq<char>, replacement: Seq<char>) -> Option<Seq<char>>;

/// What `regex::RegexBuilder` (case-blind when `ci`) and
/// `Regex::replace_all` give: `text` with every non-overlapping match of
/// `pattern` replaced; `None` when the pattern does not compile.
pub uninterp spec fn regex_all_replaced(pattern: Seq<char>, ci: bool, text: Seq<char>, replacement: Seq<char>) -> Option<Seq<char>>;

/// `RegexBuilder::new(pattern).case_insensitive(ci).build()`, then
/// `replace(text, replacement)` on the regex; `None` on a build error.
#[verifier::external_body]
pub(crate) fn regex_replace_first(pattern: &str, ci: bool, text: &str, replacement: &str) -> (r: Option<String>)
    ensures
        match r {
            Some(s) => regex_first_replaced(pattern@, ci, text@, replacement@) == Some(s@),
            None => regex_first_replaced(pattern@, ci, text@, replacement@) is None,
        },
{
    match regex::RegexBuilder::new(pattern).case_insensitive(ci).build() {
        Ok(re) => Some(re.replace(text, replacement).into_owned()),
        Err(_) => None,
    }
}

/// `RegexBuilder::new(pattern).case_insensitive(ci).build()`, then
/// `replace_all(text, replacement)` on the regex; `None` on a build
/// error.
#[verifier::external_body]
fn regex_replace_all(pattern: &str, ci: bool, text: &str, replacement: &str) -> (r: Option<String>)
    ensures
        match r {
            Some(s) => regex_all_replaced(pattern@, ci, text@, replacement@) == Some(s@),
            None => regex_all_replaced(pattern@, ci, text@, replacement@) is None,
        },
{
    match regex::RegexBuilder::new(pattern).case_insensitive(ci).build() {
        Ok(re) => Some(re.replace_all(text, replacement).into_owned()),
        Err(_) => None,
    }
}

/// What `VAR =~ s/pattern/replacement/flags` makes of a variable's value
/// (pattern and replacement expanded already): every match replaced with
/// `g`, the first otherwise, case-blind with `i`; `None` when the
/// pattern does not compile, and the variable then keeps its value.
pub open spec fn substituted(pattern: Seq<char>, replacement: Seq<char>, value: Seq<char>, global: bool, ci: bool) -> Option<Seq<char>> {
    if global {
        regex_all_replaced(pattern, ci, value, replacement)
    } else {
        regex_first_replaced(pattern, ci, value, replacement)
    }
}

/// Apply a substitution to a variable's value.
pub fn substitute(pattern: &str, replacement: &str, value: &str, global: bool, ci: bool) -> (r: Option<String>)
    ensures
        match r {
            Some(s) => substituted(pattern@, replacement@, value@, global, ci) == Some(s@),
            None => substituted(pattern@, replacement@, value@, global, ci) is None,
        },
{
    if global {
        regex_replace_all(pattern, ci, value, replacement)
    } else {
        regex_replace_first(pattern, ci, value, replacement)
    }
}

/// A subject is cut to this many bytes in the log abstract.
pub const MAX_SUBJECT: usize = 78;
/// A folder name is cut to this many characters in the log abstract.
pub const MAX_FOLDER: usize = 61;
/// The column where the message size should start.
pub const TAB_STOP: usize = 72;
/// Width of a tab.
pub const TAB: usize = 8;

/// Whether the abstract is logged: LOGABSTRACT positive, or not zero
/// while there is a log file or verbose logging.
pub fn abstract_wanted(logabstract: i64, logging: bool) -> (b: bool)
    ensures
        b == (logabstract > 0 || (logging && logabstract != 0)),
{
    logabstract > 0 || (logging && logabstract != 0)
}

/// The subject with each tab a blank.
pub open spec fn detabbed(s: Seq<char>) -> Seq<char> {
    Seq::new(s.len(), |i: int| if s[i] == '\t' { ' ' } else { s[i] })
}

/// The subject as the abstract shows it, in bytes: tabs made blanks, cut
/// to `MAX_SUBJECT` bytes.
pub open spec fn subject_bytes(s: Seq<char>) -> Seq<u8> {
    let b = encode_utf8(detabbed(s));
    if b.len() > MAX_SUBJECT { b.take(MAX_SUBJECT as int) } else { b }
}

/// The cut falls between two characters.
pub open spec fn subject_cuttable(s: Seq<char>) -> bool {
    let b = encode_utf8(detabbed(s));
    b.len() > MAX_SUBJECT ==> vstd::utf8::is_char_boundary(b, MAX_SUBJECT as int)
}

/// The subject part of the abstract (after ` Subject: `).
pub fn abstract_subject(subj: &str) -> (r: String)
    requires
        subject_cuttable(subj@),
    ensures
        encode_utf8(r@) == subject_bytes(subj@),
{
    let v = chars_of(subj);
    let mut out: Vec<char> = Vec::new();
    let mut i: usize = 0;
    while i < v.len()
        invariant
            i <= v@.len(),
            v@ == subj@,
            out@ == detabbed(v@).take(i as int),
        decreases v@.len() - i,
    {
        let c = if v[i] == '\t' { ' ' } else { v[i] };
        out.push(c);
        assert(out@ =~= detabbed(v@).take(i + 1));
        i += 1;
    }
    assert(out@ =~= detabbed(subj@));
    let t = string_from(out.as_slice());
    let n = t.as_str().as_bytes().len();
    if n > MAX_SUBJECT {
        let (head, _) = t.as_str().split_at(MAX_SUBJECT);
        let r = head.to_string();
        assert(encode_utf8(r@) =~= subject_bytes(subj@));
        r
    } else {
        assert(t@ == detabbed(subj@));
        assert(encode_utf8(t@).len() == n);
        t
    }
}

/// A folder name as the abstract shows it: control characters made
/// blanks, cut to `MAX_FOLDER` characters.
pub open spec fn folder_shown(f: Seq<char>) -> Seq<char> {
    let n = if f.len() > MAX_FOLDER { MAX_FOLDER as nat } else { f.len() };
    Seq::new(n, |i: int| if f[i] <= '\u{1f}' || f[i] == '\u{7f}' { ' ' } else { f[i] })
}

/// The tabs after the folder name: enough to reach `TAB_STOP` from the
/// tab stop at or before where the name ends (ten columns in), at least
/// one.
pub open spec fn folder_tabs(name_bytes: nat) -> nat {
    let col0 = 10 + name_bytes;
    let col = col0 - col0 % (TAB as nat);
    let gap = if col < TAB_STOP { TAB_STOP - col } else { 0 };
    let tabs = (gap + TAB - 1) / (TAB as int);
    if tabs < 1 { 1 } else { tabs as nat }
}

/// The folder line of the abstract: `  Folder: `, the name, tabs, and
/// the size right-aligned in seven columns.
pub open spec fn folder_line(f: Seq<char>, size: u64) -> Seq<char> {
    "  Folder: "@ + folder_shown(f) + repeat('\t', folder_tabs(encode_utf8(folder_shown(f)).len()))
        + rjust(decimal(size as nat), 7)
}

/// The size the abstract gives: the message's length, one more when it
/// does not end with a blank line (for the one that delivery adds).
pub open spec fn abstract_size(msg: Seq<u8>) -> nat {
    msg.len() + if msg.len() >= 2 && msg[msg.len() - 2] == 10u8 && msg[msg.len() - 1] == 10u8 { 0nat } else { 1nat }
}

/// The size of a message as the abstract gives it.
pub fn message_size(msg: &[u8]) -> (r: u64)
    requires
        msg@.len() < u64::MAX,
    ensures
        r == abstract_size(msg@),
{
    let n = msg.len();
    let blank_end = n >= 2 && msg[n - 2] == 10u8 && msg[n - 1] == 10u8;
    if blank_end { n as u64 } else { n as u64 + 1 }
}

/// The folder line of the log abstract.
pub fn abstract_folder(folder: &str, size: u64) -> (r: String)
    ensures
        r@ == folder_line(folder@, size),
{
    let v = chars_of(folder);
    let n = if v.len() > MAX_FOLDER { MAX_FOLDER } else { v.len() };
    let mut shown: Vec<char> = Vec::new();
    let mut i: usize = 0;
    while i < n
        invariant
            i <= n <= v@.len(),
            v@ == folder@,
            n == if v@.len() > MAX_FOLDER { MAX_FOLDER as nat } else { v@.len() },
            shown@ == folder_shown(v@).take(i as int),
        decreases n - i,
    {
        let c = v[i];
        let d = if c <= '\u{1f}' || c == '\u{7f}' { ' ' } else { c };
        shown.push(d);
        assert(shown@ =~= folder_shown(v@).take(i + 1));
        i += 1;
    }
    assert(shown@ =~= folder_shown(folder@));
    let name = string_from(shown.as_slice());
    let nb = name.as_str().as_bytes().len();
    proof {
        crate::config::parser::lines::lemma_encode_len(shown@);
        assert(encode_utf8(shown@).len() <= 4 * MAX_FOLDER) by {
            lemma_encode_bound(shown@);
        }
    }
    let col0 = 10 + nb;
    let col = col0 - col0 % TAB;
    let gap = if col < TAB_STOP { TAB_STOP - col } else { 0 };
    let t = (gap + TAB - 1) / TAB;
    let tabs = if t < 1 { 1 } else { t };
    let mut out = chars_of("  Folder: ");
    push_chars(&mut out, shown.as_slice());
    push_repeat(&mut out, '\t', tabs);
    push_number(&mut out, size, 7);
    string_from(out.as_slice())
}

/// Each character takes at most four bytes.
proof fn lemma_encode_bound(s: Seq<char>)
    ensures
        encode_utf8(s).len() <= 4 * s.len(),
    decreases s.len(),
{
    if s.len() > 0 {
        lemma_encode_bound(s.drop_first());
    }
}

} // verus!
