//! Recipes, their flags, and the items of an rcfile.

use vstd::prelude::*;

use vstd::slice::slice_subrange;

use super::action::{action_view, Action, ActionModel};
use super::condition::{Condition, ConditionModel};
use crate::text::{
    chars_of, contains_char, find_char, find_char_in, skip_ws, skip_ws_from, string_of_range, trim, trim_bounds,
    trim_start,
};

verus! {

/// Which parts of the message to operate on (grep or delivery).
#[derive(Debug, Clone, Copy, Default, PartialEq, Eq, Structural)]
pub enum MailParts {
    /// Headers only.
    Headers,
    /// Body only.
    Body,
    /// Both headers and body.
    #[default]
    Full,
}

/// `s` holds character `c`.
pub open spec fn has(s: Seq<char>, c: char) -> bool {
    s.contains(c)
}

/// A character that `Flags::parse` knows.
pub open spec fn is_flag_char(c: char) -> bool {
    c == 'H' || c == 'B' || c == 'h' || c == 'b' || c == 'D' || c == 'A' || c == 'a' || c == 'E'
        || c == 'e' || c == 'f' || c == 'c' || c == 'w' || c == 'W' || c == 'i' || c == 'r' || c
        == ' ' || c == '\t'
}

/// The characters of `s` that are no flag, in order.
pub open spec fn unknown_flags(s: Seq<char>) -> Seq<char>
    decreases s.len(),
{
    if s.len() == 0 {
        Seq::empty()
    } else if is_flag_char(s.last()) {
        unknown_flags(s.drop_last())
    } else {
        unknown_flags(s.drop_last()).push(s.last())
    }
}

/// Which parts to grep: `H` and `B` both give the full message, `B`
/// alone the body, otherwise the header.
pub open spec fn grep_parts(s: Seq<char>) -> MailParts {
    if has(s, 'H') && has(s, 'B') {
        MailParts::Full
    } else if has(s, 'B') {
        MailParts::Body
    } else {
        MailParts::Headers
    }
}

/// Which parts to pass: `h` and `b` both (or neither) give the full
/// message, `h` alone the header, `b` alone the body.
pub open spec fn pass_parts(s: Seq<char>) -> MailParts {
    if has(s, 'h') && has(s, 'b') {
        MailParts::Full
    } else if has(s, 'h') {
        MailParts::Headers
    } else if has(s, 'b') {
        MailParts::Body
    } else {
        MailParts::Full
    }
}

/// All 15 procmail recipe flags.
#[derive(Debug, Clone, Default, PartialEq)]
pub struct Flags {
    /// `H`/`B` — which message parts to grep.
    pub grep: MailParts,
    /// `D` — case sensitive.
    pub case: bool,
    /// `A` — chain on prior condition match.
    pub chain: bool,
    /// `a` — chain on prior success.
    pub succ: bool,
    /// `E` — else branch.
    pub else_: bool,
    /// `e` — error handler.
    pub err: bool,
    /// `h`/`b` — which message parts to pass for delivery.
    pub pass: MailParts,
    /// `f` — filter mode.
    pub filter: bool,
    /// `c` — continue after delivery.
    pub copy: bool,
    /// `w` — wait for program.
    pub wait: bool,
    /// `W` — wait quietly.
    pub quiet: bool,
    /// `i` — ignore write errors.
    pub ignore: bool,
    /// `r` — raw mode.
    pub raw: bool,
    /// Unrecognized flag characters.
    pub unknown: Vec<char>,
}

/// The flags that a flag string sets.
pub open spec fn flags_of(f: &Flags, s: Seq<char>) -> bool {
    &&& f.grep == grep_parts(s)
    &&& f.pass == pass_parts(s)
    &&& f.case == has(s, 'D')
    &&& f.chain == has(s, 'A')
    &&& f.succ == has(s, 'a')
    &&& f.else_ == has(s, 'E')
    &&& f.err == has(s, 'e')
    &&& f.filter == has(s, 'f')
    &&& f.copy == has(s, 'c')
    &&& f.wait == (has(s, 'w') || has(s, 'W'))
    &&& f.quiet == has(s, 'W')
    &&& f.ignore == has(s, 'i')
    &&& f.raw == has(s, 'r')
    &&& f.unknown@ == unknown_flags(s)
}

impl Flags {
    /// Default flags: grep headers, pass full message.
    pub fn new() -> (f: Flags)
        ensures
            flags_of(&f, Seq::empty()),
    {
        let f = Flags {
            grep: MailParts::Headers,
            case: false,
            chain: false,
            succ: false,
            else_: false,
            err: false,
            pass: MailParts::Full,
            filter: false,
            copy: false,
            wait: false,
            quiet: false,
            ignore: false,
            raw: false,
            unknown: Vec::new(),
        };
        assert(f.unknown@ =~= unknown_flags(Seq::empty()));
        f
    }

    /// Parse flags from the colon line of a recipe.
    pub fn parse(s: &str) -> (f: Flags)
        ensures
            flags_of(&f, s@),
            flags_view(f) == flags_model(s@),
    {
        let v = chars_of(s);
        Self::parse_chars(v.as_slice())
    }

    /// `parse`, over characters.
    pub fn parse_chars(v: &[char]) -> (f: Flags)
        ensures
            flags_of(&f, v@),
            flags_view(f) == flags_model(v@),
    {
        let seen_h = contains_char(v, 'H');
        let seen_b = contains_char(v, 'B');
        let seen_lh = contains_char(v, 'h');
        let seen_lb = contains_char(v, 'b');
        let mut unknown: Vec<char> = Vec::new();
        let mut i: usize = 0;
        while i < v.len()
            invariant
                i <= v@.len(),
                unknown@ == unknown_flags(v@.take(i as int)),
            decreases v@.len() - i,
        {
            let c = v[i];
            assert(v@.take(i + 1).drop_last() =~= v@.take(i as int));
            if !(c == 'H' || c == 'B' || c == 'h' || c == 'b' || c == 'D' || c == 'A' || c == 'a'
                || c == 'E' || c == 'e' || c == 'f' || c == 'c' || c == 'w' || c == 'W' || c == 'i'
                || c == 'r' || c == ' ' || c == '\t') {
                unknown.push(c);
            }
            i += 1;
        }
        assert(v@.take(i as int) =~= v@);
        Flags {
            grep: if seen_h && seen_b {
                MailParts::Full
            } else if seen_b {
                MailParts::Body
            } else {
                MailParts::Headers
            },
            case: contains_char(v, 'D'),
            chain: contains_char(v, 'A'),
            succ: contains_char(v, 'a'),
            else_: contains_char(v, 'E'),
            err: contains_char(v, 'e'),
            pass: if seen_lh && seen_lb {
                MailParts::Full
            } else if seen_lh {
                MailParts::Headers
            } else if seen_lb {
                MailParts::Body
            } else {
                MailParts::Full
            },
            filter: contains_char(v, 'f'),
            copy: contains_char(v, 'c'),
            wait: contains_char(v, 'w') || contains_char(v, 'W'),
            quiet: contains_char(v, 'W'),
            ignore: contains_char(v, 'i'),
            raw: contains_char(v, 'r'),
            unknown,
        }
    }

    /// Whether the header is grepped (`H`, or no `B`).
    pub fn head(&self) -> (b: bool)
        ensures
            b == (self.grep == MailParts::Headers || self.grep == MailParts::Full),
    {
        match self.grep {
            MailParts::Headers | MailParts::Full => true,
            MailParts::Body => false,
        }
    }

    /// Whether the body is grepped (`B`).
    pub fn body(&self) -> (b: bool)
        ensures
            b == (self.grep == MailParts::Body || self.grep == MailParts::Full),
    {
        match self.grep {
            MailParts::Body | MailParts::Full => true,
            MailParts::Headers => false,
        }
    }

    /// Whether the header is passed on delivery.
    pub fn pass_head(&self) -> (b: bool)
        ensures
            b == (self.pass == MailParts::Headers || self.pass == MailParts::Full),
    {
        match self.pass {
            MailParts::Headers | MailParts::Full => true,
            MailParts::Body => false,
        }
    }

    /// Whether the body is passed on delivery.
    pub fn pass_body(&self) -> (b: bool)
        ensures
            b == (self.pass == MailParts::Body || self.pass == MailParts::Full),
    {
        match self.pass {
            MailParts::Body | MailParts::Full => true,
            MailParts::Headers => false,
        }
    }
}

/// Model of a header manipulation operation.
pub enum HeaderOpModel {
    DeleteInsert { field: Seq<char>, value: Seq<char> },
    RenameInsert { field: Seq<char>, value: Seq<char> },
    AddIfNot { field: Seq<char>, value: Seq<char> },
    AddAlways { field: Seq<char>, value: Seq<char> },
}

/// Header manipulation operation (rockmail extension).
#[derive(Debug, Clone, PartialEq)]
#[allow(missing_docs)]
pub enum HeaderOp {
    /// `@I` — delete all matching, then insert.
    DeleteInsert { field: String, value: String },
    /// `@i` — rename existing to `Old-`, insert new.
    RenameInsert { field: String, value: String },
    /// `@a` — add only if header not present.
    AddIfNot { field: String, value: String },
    /// `@A` — always add (append).
    AddAlways { field: String, value: String },
}

impl View for HeaderOp {
    type V = HeaderOpModel;

    open spec fn view(&self) -> HeaderOpModel {
        match self {
            HeaderOp::DeleteInsert { field, value } => HeaderOpModel::DeleteInsert {
                field: field@,
                value: value@,
            },
            HeaderOp::RenameInsert { field, value } => HeaderOpModel::RenameInsert {
                field: field@,
                value: value@,
            },
            HeaderOp::AddIfNot { field, value } => HeaderOpModel::AddIfNot {
                field: field@,
                value: value@,
            },
            HeaderOp::AddAlways { field, value } => HeaderOpModel::AddAlways {
                field: field@,
                value: value@,
            },
        }
    }
}

/// The field name of a header operation.
pub open spec fn op_field(op: HeaderOpModel) -> Seq<char> {
    match op {
        HeaderOpModel::DeleteInsert { field, .. } => field,
        HeaderOpModel::RenameInsert { field, .. } => field,
        HeaderOpModel::AddIfNot { field, .. } => field,
        HeaderOpModel::AddAlways { field, .. } => field,
    }
}

/// The value of a header operation.
pub open spec fn op_value(op: HeaderOpModel) -> Seq<char> {
    match op {
        HeaderOpModel::DeleteInsert { value, .. } => value,
        HeaderOpModel::RenameInsert { value, .. } => value,
        HeaderOpModel::AddIfNot { value, .. } => value,
        HeaderOpModel::AddAlways { value, .. } => value,
    }
}

/// The text after `@X` of a header operation line, trimmed at its start.
pub open spec fn op_rest(s: Seq<char>) -> Seq<char> {
    trim_start(s.skip(2))
}

/// What `HeaderOp::parse` makes of `s`: `@X Field: value`, where `X` is
/// one of `I`, `i`, `a`, `A` and the field name (trimmed) is not empty.
pub open spec fn header_op_of(s: Seq<char>) -> Option<HeaderOpModel> {
    if s.len() < 2 || s[0] != '@' {
        None
    } else {
        let rest = op_rest(s);
        match find_char(rest, ':') {
            None => None,
            Some(c) => {
                let field = trim(rest.take(c as int));
                let value = trim(rest.skip(c + 1 as int));
                if field.len() == 0 {
                    None
                } else if s[1] == 'I' {
                    Some(HeaderOpModel::DeleteInsert { field, value })
                } else if s[1] == 'i' {
                    Some(HeaderOpModel::RenameInsert { field, value })
                } else if s[1] == 'a' {
                    Some(HeaderOpModel::AddIfNot { field, value })
                } else if s[1] == 'A' {
                    Some(HeaderOpModel::AddAlways { field, value })
                } else {
                    None
                }
            },
        }
    }
}

#[allow(missing_docs)]
impl HeaderOp {
    pub fn field(&self) -> (r: &str)
        ensures
            r@ == op_field(self@),
    {
        match self {
            HeaderOp::DeleteInsert { field, .. } | HeaderOp::RenameInsert { field, .. }
            | HeaderOp::AddIfNot { field, .. } | HeaderOp::AddAlways { field, .. } => field.as_str(),
        }
    }

    pub fn value(&self) -> (r: &str)
        ensures
            r@ == op_value(self@),
    {
        match self {
            HeaderOp::DeleteInsert { value, .. } | HeaderOp::RenameInsert { value, .. }
            | HeaderOp::AddIfNot { value, .. } | HeaderOp::AddAlways { value, .. } => value.as_str(),
        }
    }

    /// Parse `@X Header: value` into a `HeaderOp`.
    pub fn parse(s: &str) -> (r: Option<HeaderOp>)
        ensures
            r matches Some(op) ==> header_op_of(s@) == Some(op@),
            r is None ==> header_op_of(s@) is None,
    {
        let v = chars_of(s);
        Self::parse_chars(v.as_slice())
    }

    /// `parse`, over characters.
    pub fn parse_chars(v: &[char]) -> (r: Option<HeaderOp>)
        ensures
            r matches Some(op) ==> header_op_of(v@) == Some(op@),
            r is None ==> header_op_of(v@) is None,
    {
        if v.len() < 2 || v[0] != '@' {
            return None;
        }
        let op = v[1];
        let a = skip_ws_from(v, 2);
        let ghost rest = op_rest(v@);
        proof {
            crate::text::lemma_skip_ws_skip(v@, 2, 2);
            assert(rest =~= v@.subrange(a as int, v@.len() as int));
        }
        let c = match find_char_in(v, ':', a) {
            Some(c) => c,
            None => {
                proof {
                    crate::text::lemma_find_char_shift(v@, ':', a as int);
                }
                return None;
            },
        };
        proof {
            crate::text::lemma_find_char_shift(v@, ':', a as int);
            assert(rest.take(c - a) =~= v@.subrange(a as int, c as int));
            assert(rest.skip(c - a + 1) =~= v@.subrange(c + 1, v@.len() as int));
        }
        let fpart = slice_subrange(v, a, c);
        let (fa, fb) = trim_bounds(fpart);
        if fa == fb {
            return None;
        }
        let field = string_of_range(fpart, fa, fb);
        let vpart = slice_subrange(v, c + 1, v.len());
        let (va, vb) = trim_bounds(vpart);
        let value = string_of_range(vpart, va, vb);
        if op == 'I' {
            Some(HeaderOp::DeleteInsert { field, value })
        } else if op == 'i' {
            Some(HeaderOp::RenameInsert { field, value })
        } else if op == 'a' {
            Some(HeaderOp::AddIfNot { field, value })
        } else if op == 'A' {
            Some(HeaderOp::AddAlways { field, value })
        } else {
            None
        }
    }
}

/// Model of a set of recipe flags.
pub struct FlagsModel {
    pub grep: MailParts,
    pub case: bool,
    pub chain: bool,
    pub succ: bool,
    pub else_: bool,
    pub err: bool,
    pub pass: MailParts,
    pub filter: bool,
    pub copy: bool,
    pub wait: bool,
    pub quiet: bool,
    pub ignore: bool,
    pub raw: bool,
    pub unknown: Seq<char>,
}

/// The model of a set of flags.
pub open spec fn flags_view(f: Flags) -> FlagsModel {
    FlagsModel {
        grep: f.grep,
        case: f.case,
        chain: f.chain,
        succ: f.succ,
        else_: f.else_,
        err: f.err,
        pass: f.pass,
        filter: f.filter,
        copy: f.copy,
        wait: f.wait,
        quiet: f.quiet,
        ignore: f.ignore,
        raw: f.raw,
        unknown: f.unknown@,
    }
}

/// The flags that a flag string sets, as a model.
pub open spec fn flags_model(s: Seq<char>) -> FlagsModel {
    FlagsModel {
        grep: grep_parts(s),
        case: has(s, 'D'),
        chain: has(s, 'A'),
        succ: has(s, 'a'),
        else_: has(s, 'E'),
        err: has(s, 'e'),
        pass: pass_parts(s),
        filter: has(s, 'f'),
        copy: has(s, 'c'),
        wait: has(s, 'w') || has(s, 'W'),
        quiet: has(s, 'W'),
        ignore: has(s, 'i'),
        raw: has(s, 'r'),
        unknown: unknown_flags(s),
    }
}

/// Model of a recipe.
pub struct RecipeModel {
    pub flags: FlagsModel,
    pub lockfile: Option<Seq<char>>,
    pub conds: Seq<ConditionModel>,
    pub action: ActionModel,
}

/// Model of an rcfile item.
pub enum ItemModel {
    Assign { name: Seq<char>, value: Seq<char>, line: nat },
    Subst {
        name: Seq<char>,
        pattern: Seq<char>,
        replace: Seq<char>,
        global: bool,
        case_insensitive: bool,
        line: nat,
    },
    Recipe { recipe: RecipeModel, line: nat },
    Include { path: Seq<char>, line: nat },
    Switch { path: Seq<char>, line: nat },
}

/// A single procmail recipe.
#[derive(Debug, PartialEq)]
pub struct Recipe {
    /// Recipe flags from the `:0` line.
    pub flags: Flags,
    /// Explicit lockfile from the `:0` line (`:` suffix).
    pub lockfile: Option<String>,
    /// Zero or more condition lines (`*` prefix).
    pub conds: Vec<Condition>,
    /// Delivery action (folder, pipe, forward, or nested block).
    pub action: Action,
}

/// The models of a sequence of conditions.
pub open spec fn conds_view(v: Seq<Condition>) -> Seq<ConditionModel> {
    v.map_values(|c: Condition| c@)
}

/// The model of a recipe.
pub open spec fn recipe_view(r: Recipe) -> RecipeModel
    decreases r, 1nat,
{
    RecipeModel {
        flags: flags_view(r.flags),
        lockfile: match r.lockfile {
            Some(l) => Some(l@),
            None => None,
        },
        conds: conds_view(r.conds@),
        action: action_view(r.action),
    }
}

/// The model of an item.
pub open spec fn item_view(it: Item) -> ItemModel
    decreases it, 2nat,
{
    match it {
        Item::Assign { name, value, line } => ItemModel::Assign { name: name@, value: value@, line: line as nat },
        Item::Subst { name, pattern, replace, global, case_insensitive, line } => ItemModel::Subst {
            name: name@,
            pattern: pattern@,
            replace: replace@,
            global,
            case_insensitive,
            line: line as nat,
        },
        Item::Recipe { recipe, line } => ItemModel::Recipe { recipe: recipe_view(recipe), line: line as nat },
        Item::Include { path, line } => ItemModel::Include { path: path@, line: line as nat },
        Item::Switch { path, line } => ItemModel::Switch { path: path@, line: line as nat },
    }
}

/// The models of a sequence of items.
pub open spec fn items_view(v: Seq<Item>) -> Seq<ItemModel>
    decreases v, 3nat,
{
    if v.len() == 0 {
        Seq::empty()
    } else {
        items_view(v.drop_last()).push(item_view(v.last()))
    }
}

impl Recipe {
    /// Construct a recipe from its parts.
    pub fn new(flags: Flags, lockfile: Option<String>, conds: Vec<Condition>, action: Action) -> (r: Recipe)
        ensures
            r.flags == flags,
            r.lockfile == lockfile,
            r.conds == conds,
            r.action == action,
    {
        Recipe { flags, lockfile, conds, action }
    }

    /// Returns true if this is a delivering recipe (writes to
    /// file/forwards/pipes without capture)
    pub fn is_delivering(&self) -> (b: bool)
        ensures
            b == match self.action {
                Action::Folder(_) | Action::Forward(_) => true,
                Action::Pipe { capture, .. } => capture is None,
                _ => false,
            },
    {
        match &self.action {
            Action::Folder(_) => true,
            Action::Forward(_) => true,
            Action::Pipe { capture: None, .. } => true,
            Action::Pipe { capture: Some(_), .. } => false,
            Action::Nested(_) | Action::DupeCheck { .. } | Action::HeaderOp(_) => false,
        }
    }
}

/// An rcfile item: variable assignment, recipe, or include directive.
#[derive(Debug, PartialEq)]
#[allow(missing_docs)]
pub enum Item {
    Assign { name: String, value: String, line: usize },
    Subst {
        name: String,
        pattern: String,
        replace: String,
        global: bool,
        case_insensitive: bool,
        line: usize,
    },
    Recipe { recipe: Recipe, line: usize },
    Include { path: String, line: usize },
    Switch { path: String, line: usize },
}

} // verus!
