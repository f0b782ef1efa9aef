//! The rcfile parser: items, recipes, nested blocks, and the warnings
//! that it gathers on the way.

pub mod error;
pub mod line;
pub mod lines;
pub mod model;
pub mod warning;

pub use self::error::ParseError;
pub use self::warning::ParseWarning;

use vstd::prelude::*;
use vstd::slice::{slice_subrange, slice_to_vec};
use vstd::utf8::encode_utf8;

use self::error::{Halt, HaltModel};
use self::line::{has_unclosed_quote, opt_item, parse_assignment, parse_header, unclosed_quote};
use self::lines::{
    byte_total, lemma_encode_len, lemma_encode_subrange, lemma_lines_bytes, lemma_lines_count,
    lemma_offset_mono, lemma_offset_step, lines_of, lines_view, offset_at, split_lines, utf8_len,
    weight,
};
use self::model::{
    blank_or_comment, conditions, continuation, inline_block, join_backslash, join_quoted,
    lemma_inline_block_len, lemma_trim_len, parse_text, skip_blank, PState, MAX_DEPTH,
};
use crate::config::{
    conds_view, flags_view, item_view, items_view, opt_view, recipe_view, action_view, Action,
    ActionModel, Condition, Flags, FlagsModel, Item, ItemModel, Recipe, RecipeModel,
};
use crate::text::{chars_of, contains_char, string_from, trim, trim_bounds};
use self::lines::{lemma_lines_weight, lemma_progress, lemma_weight_mono, lemma_weight_step};

verus! {

/// Parser state: the lines of the rcfile, the next one to read, the
/// byte offset at which it starts, the nesting depth, and the warnings.
pub struct Parser {
    lines: Vec<Vec<char>>,
    name: String,
    pos: usize,
    offset: usize,
    depth: usize,
    warnings: Vec<ParseWarning>,
}

/// The model of the result of reading an item.
pub open spec fn item_result(r: Result<Option<Item>, Halt>) -> Result<Option<ItemModel>, HaltModel> {
    match r {
        Ok(o) => Ok(opt_item(o)),
        Err(h) => Err(h@),
    }
}

/// The model of the result of reading items.
pub open spec fn items_result(r: Result<Vec<Item>, Halt>) -> Result<Seq<ItemModel>, HaltModel> {
    match r {
        Ok(v) => Ok(items_view(v@)),
        Err(h) => Err(h@),
    }
}

/// The model of the result of reading a recipe.
pub open spec fn recipe_result(r: Result<Recipe, Halt>) -> Result<RecipeModel, HaltModel> {
    match r {
        Ok(x) => Ok(recipe_view(x)),
        Err(h) => Err(h@),
    }
}

/// The model of the result of reading an action.
pub open spec fn action_result(r: Result<Action, Halt>) -> Result<ActionModel, HaltModel> {
    match r {
        Ok(a) => Ok(action_view(a)),
        Err(h) => Err(h@),
    }
}

/// `acc` before the items that a read gives, if it succeeds.
pub open spec fn after(acc: Seq<ItemModel>, res: (Result<Seq<ItemModel>, HaltModel>, PState)) -> (
    Result<Seq<ItemModel>, HaltModel>,
    PState,
) {
    match res.0 {
        Ok(rest) => (Ok(acc + rest), res.1),
        Err(e) => (Err(e), res.1),
    }
}

/// The read stopped at a substitution whose delimiter takes more than
/// one byte.
pub open spec fn split_halt<T>(r: Result<T, HaltModel>) -> bool {
    r matches Err(HaltModel::SplitChar)
}

/// The model of a parse's result, its errors taken as halts.
pub open spec fn parsed(r: Result<Vec<Item>, ParseError>) -> Result<Seq<ItemModel>, HaltModel> {
    match r {
        Ok(v) => Ok(items_view(v@)),
        Err(e) => Err(HaltModel::Error(e@)),
    }
}

/// The model of a recipe's result, its errors taken as halts.
pub open spec fn parsed_recipe(r: Result<Recipe, ParseError>) -> Result<RecipeModel, HaltModel> {
    match r {
        Ok(x) => Ok(recipe_view(x)),
        Err(e) => Err(HaltModel::Error(e@)),
    }
}

/// One item more at the end.
proof fn lemma_items_view_push(v: Seq<Item>, it: Item)
    ensures
        items_view(v.push(it)) == items_view(v).push(item_view(it)),
{
    assert(v.push(it).drop_last() =~= v);
}

/// A line that holds nothing, or only a comment.
fn is_blank_line(v: &[char]) -> (b: bool)
    ensures
        b == blank_or_comment(v@),
{
    let (a, e) = trim_bounds(v);
    a == e || v[a] == '#'
}

impl Parser {
    /// The lines being read.
    pub closed spec fn ls(&self) -> Seq<Seq<char>> {
        lines_view(self.lines@)
    }

    /// Where the parser stands: next line, depth, warnings.
    pub closed spec fn state(&self) -> PState {
        PState { pos: self.pos as nat, depth: self.depth as nat, warns: self.warnings@ }
    }

    /// The name given to the rcfile.
    pub closed spec fn name_view(&self) -> Seq<char> {
        self.name@
    }

    /// The next line is a line or the end, its offset is counted right,
    /// and every offset fits in a `usize`.
    pub closed spec fn wf(&self) -> bool {
        &&& self.pos <= self.lines@.len()
        &&& self.lines@.len() < usize::MAX
        &&& self.offset == offset_at(self.ls(), self.pos as nat)
        &&& byte_total(self.ls()) <= usize::MAX
    }

    /// A parser at the start of the text `v`, `depth` blocks deep.
    fn from_text(v: &[char], depth: usize) -> (p: Parser)
        requires
            encode_utf8(v@).len() < usize::MAX,
        ensures
            p.wf(),
            p.ls() == lines_of(v@),
            p.state() == (PState { pos: 0, depth: depth as nat, warns: Seq::empty() }),
            p.name_view() == "rcfile"@,
    {
        let lines = split_lines(v);
        proof {
            lemma_lines_bytes(v@, 0);
            lemma_lines_count(v@, 0);
            lemma_encode_len(v@);
            assert(v@.subrange(0, v@.len() as int) =~= v@);
            assert(lines_view(lines@).take(0) =~= Seq::<Seq<char>>::empty());
        }
        let p = Parser {
            lines,
            name: String::from_str("rcfile"),
            pos: 0,
            offset: 0,
            depth,
            warnings: Vec::new(),
        };
        assert(p.state().warns =~= Seq::<ParseWarning>::empty());
        p
    }

    /// A parser at the start of `input`.
    pub fn new(input: &str) -> (p: Parser)
        requires
            encode_utf8(input@).len() < usize::MAX,
        ensures
            p.wf(),
            p.ls() == lines_of(input@),
            p.state() == (PState { pos: 0, depth: 0, warns: Seq::empty() }),
            p.name_view() == "rcfile"@,
    {
        let v = chars_of(input);
        Self::from_text(v.as_slice(), 0)
    }

    /// Name the rcfile (for diagnostics).
    pub fn set_name(&mut self, name: &str)
        ensures
            final(self).name_view() == name@,
            final(self).ls() == old(self).ls(),
            final(self).state() == old(self).state(),
            final(self).wf() == old(self).wf(),
    {
        self.name = String::from_str(name);
    }

    /// The name given to the rcfile.
    pub fn name(&self) -> (r: &str)
        ensures
            r@ == self.name_view(),
    {
        self.name.as_str()
    }

    /// The warnings gathered so far.
    pub fn warnings(&self) -> (r: &[ParseWarning])
        ensures
            r@ == self.state().warns,
    {
        self.warnings.as_slice()
    }

    /// How many blocks deep the parser stands.
    pub fn depth(&self) -> (r: usize)
        ensures
            r == self.state().depth,
    {
        self.depth
    }

    /// The next line, if any.
    pub fn peek(&self) -> (r: Option<String>)
        requires
            self.wf(),
        ensures
            match r {
                Some(l) => self.state().pos < self.ls().len() && l@ == self.ls()[self.state().pos as int],
                None => self.state().pos >= self.ls().len(),
            },
    {
        if self.pos < self.lines.len() {
            Some(string_from(self.lines[self.pos].as_slice()))
        } else {
            None
        }
    }

    /// Step past the next line.
    fn advance(&mut self)
        requires
            old(self).wf(),
            old(self).pos < old(self).lines@.len(),
        ensures
            final(self).wf(),
            final(self).ls() == old(self).ls(),
            final(self).state() == (PState {
                pos: old(self).state().pos + 1,
                depth: old(self).state().depth,
                warns: old(self).state().warns,
            }),
            final(self).name_view() == old(self).name_view(),
    {
        proof {
            lemma_offset_step(self.ls(), self.pos as nat);
            lemma_offset_mono(self.ls(), (self.pos + 1) as nat, self.ls().len());
        }
        let n = utf8_len(self.lines[self.pos].as_slice());
        self.offset = self.offset + n + 1;
        self.pos = self.pos + 1;
    }

    /// Skip lines that are blank or only a comment.
    pub fn skip_blank_and_comments(&mut self)
        requires
            old(self).wf(),
        ensures
            final(self).wf(),
            final(self).ls() == old(self).ls(),
            final(self).state() == (PState {
                pos: skip_blank(old(self).ls(), old(self).state().pos),
                depth: old(self).state().depth,
                warns: old(self).state().warns,
            }),
            final(self).name_view() == old(self).name_view(),
    {
        let ghost ls = self.ls();
        let ghost p0 = self.pos as nat;
        loop
            invariant
                self.wf(),
                self.ls() == ls,
                self.depth == old(self).depth,
                self.warnings@ == old(self).warnings@,
                self.name@ == old(self).name@,
                skip_blank(ls, p0) == skip_blank(ls, self.pos as nat),
            ensures
                self.wf(),
                self.ls() == ls,
                self.depth == old(self).depth,
                self.warnings@ == old(self).warnings@,
                self.name@ == old(self).name@,
                skip_blank(ls, p0) == self.pos,
            decreases self.lines@.len() - self.pos,
        {
            if self.pos >= self.lines.len() {
                break;
            }
            if !is_blank_line(self.lines[self.pos].as_slice()) {
                break;
            }
            self.advance();
        }
    }

    /// Join continuation lines onto `first`: lines after a trailing
    /// backslash, then lines that close an open quote.
    fn continue_line(&mut self, first: &[char]) -> (r: Vec<char>)
        requires
            old(self).wf(),
        ensures
            final(self).wf(),
            final(self).ls() == old(self).ls(),
            (r@, final(self).state().pos) == continuation(old(self).ls(), old(self).state().pos, first@),
            final(self).state().depth == old(self).state().depth,
            final(self).state().warns == old(self).state().warns,
            final(self).name_view() == old(self).name_view(),
    {
        let ghost ls = self.ls();
        let ghost p0 = self.pos as nat;
        let mut r = slice_to_vec(first);
        let mut done = false;
        while !done
            invariant
                self.wf(),
                self.ls() == ls,
                self.depth == old(self).depth,
                self.warnings@ == old(self).warnings@,
                self.name@ == old(self).name@,
                done ==> (r@, self.pos as nat) == join_backslash(ls, p0, first@),
                !done ==> join_backslash(ls, p0, first@) == join_backslash(ls, self.pos as nat, r@),
            decreases self.lines@.len() - self.pos + (if done { 0int } else { 1int }),
        {
            if r.len() > 0 && r[r.len() - 1] == '\\' {
                let ghost before = r@;
                r.pop();
                assert(r@ =~= before.drop_last());
                if self.pos < self.lines.len() {
                    let (a, b) = trim_bounds(self.lines[self.pos].as_slice());
                    let mut next = slice_to_vec(slice_subrange(self.lines[self.pos].as_slice(), a, b));
                    let ghost mid = r@;
                    r.append(&mut next);
                    assert(r@ =~= before.drop_last() + trim(ls[self.pos as int]));
                    self.advance();
                } else {
                    done = true;
                }
            } else {
                done = true;
            }
        }
        let ghost q0 = self.pos as nat;
        let ghost r0 = r@;
        while self.pos < self.lines.len() && has_unclosed_quote(r.as_slice())
            invariant
                self.wf(),
                self.ls() == ls,
                self.depth == old(self).depth,
                self.warnings@ == old(self).warnings@,
                self.name@ == old(self).name@,
                join_quoted(ls, q0, r0) == join_quoted(ls, self.pos as nat, r@),
            decreases self.lines@.len() - self.pos,
        {
            let ghost before = r@;
            r.push('\n');
            let mut next = slice_to_vec(self.lines[self.pos].as_slice());
            r.append(&mut next);
            assert(r@ =~= before + seq!['\n'] + ls[self.pos as int]);
            self.advance();
        }
        r
    }

    /// Join continuation lines onto `first` (see `continuation`).
    pub fn collect_continuation(&mut self, first: &str) -> (r: String)
        requires
            old(self).wf(),
        ensures
            final(self).wf(),
            final(self).ls() == old(self).ls(),
            (r@, final(self).state().pos) == continuation(old(self).ls(), old(self).state().pos, first@),
            final(self).state().depth == old(self).state().depth,
            final(self).state().warns == old(self).state().warns,
    {
        let v = chars_of(first);
        let r = self.continue_line(v.as_slice());
        string_from(r.as_slice())
    }

    /// Parse an assignment line (see `assignment_of`).
    pub fn parse_assignment(&self, line: &str, line_num: usize) -> (r: Option<Item>)
        ensures
            opt_item(r) == line::assignment_of(line@, line_num as nat),
    {
        let v = chars_of(line);
        parse_assignment(v.as_slice(), line_num)
    }

    /// Parse a recipe header line found at byte `line_offset`; the
    /// warnings for unknown flags join the parser's.
    pub fn parse_recipe_header(&mut self, line: &str, line_num: usize, line_offset: usize) -> (r: Result<
        (Flags, Option<String>),
        ParseError,
    >)
        requires
            line_offset + encode_utf8(line@).len() <= usize::MAX,
        ensures
            final(self).ls() == old(self).ls(),
            final(self).wf() == old(self).wf(),
            final(self).state().pos == old(self).state().pos,
            final(self).state().depth == old(self).state().depth,
            match line::header_of(line@, line_num as nat, line_offset as nat) {
                Ok((f, lock, w)) => r matches Ok((rf, rl)) && flags_view(rf) == f && opt_view(rl)
                    == lock && final(self).state().warns == old(self).state().warns + w,
                Err(e) => r matches Err(re) && re@ == e && final(self).state().warns == old(
                    self,
                ).state().warns,
            },
    {
        let v = chars_of(line);
        match parse_header(v.as_slice(), line_num, line_offset) {
            Ok((f, lock, w)) => {
                let mut w = w;
                self.warnings.append(&mut w);
                Ok((f, lock))
            },
            Err(e) => Err(e),
        }
    }

    /// The condition lines of a recipe, from the next line on.
    fn conditions(&mut self) -> (r: Vec<Condition>)
        requires
            old(self).wf(),
        ensures
            final(self).wf(),
            final(self).ls() == old(self).ls(),
            (conds_view(r@), final(self).state().pos, final(self).state().warns) == conditions(
                old(self).ls(),
                old(self).state().pos,
                Seq::empty(),
                old(self).state().warns,
            ),
            final(self).state().depth == old(self).state().depth,
            final(self).name_view() == old(self).name_view(),
    {
        let ghost ls = self.ls();
        let ghost p0 = self.pos as nat;
        let ghost w0 = self.warnings@;
        let mut acc: Vec<Condition> = Vec::new();
        assert(conds_view(acc@) =~= Seq::<crate::config::ConditionModel>::empty());
        loop
            invariant
                self.wf(),
                self.ls() == ls,
                self.depth == old(self).depth,
                self.name@ == old(self).name@,
                conditions(ls, p0, Seq::empty(), w0) == conditions(
                    ls,
                    self.pos as nat,
                    conds_view(acc@),
                    self.warnings@,
                ),
            ensures
                self.wf(),
                self.ls() == ls,
                self.depth == old(self).depth,
                self.name@ == old(self).name@,
                conditions(ls, p0, Seq::empty(), w0) == (conds_view(acc@), self.pos as nat, self.warnings@),
            decreases self.lines@.len() - self.pos,
        {
            if self.pos >= self.lines.len() {
                break;
            }
            let (a, b) = trim_bounds(self.lines[self.pos].as_slice());
            if a == b || self.lines[self.pos][a] != '*' {
                break;
            }
            let t = slice_to_vec(slice_subrange(self.lines[self.pos].as_slice(), a + 1, b));
            assert(t@ =~= trim(ls[self.pos as int]).skip(1));
            let coff = self.offset;
            let ghost p = self.pos as nat;
            self.advance();
            let full = self.continue_line(t.as_slice());
            proof {
                model::lemma_continuation(ls, p + 1, t@);
            }
            match Condition::parse_chars(full.as_slice()) {
                Some(c) => {
                    let ghost before = acc@;
                    acc.push(c);
                    assert(conds_view(acc@) =~= conds_view(before).push(c@));
                },
                None => {
                    let (fa, fb) = trim_bounds(full.as_slice());
                    if fa < fb {
                        self.warnings.push(ParseWarning::BadCondition { span: coff });
                    }
                },
            }
        }
        acc
    }

    /// The next item (see `model::next_item`).
    fn next_item(&mut self) -> (r: Result<Option<Item>, Halt>)
        requires
            old(self).wf(),
        ensures
            final(self).wf(),
            final(self).ls() == old(self).ls(),
            (item_result(r), final(self).state()) == model::next_item(old(self).ls(), old(self).state()),
        decreases weight(old(self).ls(), old(self).state().pos), 3nat,
    {
        let ghost ls = old(self).ls();
        let ghost st0 = old(self).state();
        loop
            invariant
                self.wf(),
                self.ls() == ls,
                ls == old(self).ls(),
                st0 == old(self).state(),
                st0.pos <= self.pos,
                model::next_item(ls, st0) == model::next_item(ls, self.state()),
            decreases self.lines@.len() - self.pos,
        {
            let ghost st = self.state();
            self.skip_blank_and_comments();
            proof {
                model::lemma_skip_blank(ls, st.pos);
                lemma_weight_mono(ls, st0.pos, self.pos as nat);
            }
            if self.pos >= self.lines.len() {
                return Ok(None);
            }
            let ln = self.pos + 1;
            let (a, b) = trim_bounds(self.lines[self.pos].as_slice());
            let t = slice_to_vec(slice_subrange(self.lines[self.pos].as_slice(), a, b));
            if t.len() > 0 && t[0] == ':' {
                let r = self.recipe();
                return match r {
                    Ok(rec) => Ok(Some(Item::Recipe { recipe: rec, line: ln })),
                    Err(h) => Err(h),
                };
            }
            if t.len() > 0 && t[0] == '}' {
                return Ok(None);
            }
            let off = self.offset;
            let ghost p1 = self.pos as nat;
            self.advance();
            let full = self.continue_line(t.as_slice());
            proof {
                model::lemma_continuation(ls, p1 + 1, t@);
            }
            match line::parse_subst(full.as_slice(), ln) {
                Err(h) => {
                    return Err(h);
                },
                Ok(Some(it)) => {
                    return Ok(Some(it));
                },
                Ok(None) => {},
            }
            match parse_assignment(full.as_slice(), ln) {
                Some(it) => {
                    return Ok(Some(it));
                },
                None => {},
            }
            let w = if contains_char(full.as_slice(), '=') {
                ParseWarning::BadVarName { span: off }
            } else {
                ParseWarning::SkippedLine { span: off }
            };
            self.warnings.push(w);
        }
    }

    /// A recipe whose header is the next line (see `model::recipe`).
    #[verifier::rlimit(40)]
    fn recipe(&mut self) -> (r: Result<Recipe, Halt>)
        requires
            old(self).wf(),
        ensures
            final(self).wf(),
            final(self).ls() == old(self).ls(),
            (recipe_result(r), final(self).state()) == model::recipe(old(self).ls(), old(self).state()),
        decreases weight(old(self).ls(), old(self).state().pos), 2nat,
    {
        let ghost ls = self.ls();
        let ghost st = self.state();
        if self.pos >= self.lines.len() {
            return Err(Halt::Error(ParseError::UnexpectedEof(self.pos + 1)));
        }
        let line_no = self.pos + 1;
        let hoff = self.offset;
        let header = slice_to_vec(self.lines[self.pos].as_slice());
        proof {
            lemma_offset_step(ls, st.pos);
            lemma_offset_mono(ls, st.pos + 1, ls.len());
        }
        self.advance();
        let (flags, lockfile, fw) = match parse_header(header.as_slice(), line_no, hoff) {
            Ok(x) => x,
            Err(e) => {
                return Err(Halt::Error(e));
            },
        };
        let mut fw = fw;
        self.warnings.append(&mut fw);
        let ghost p1 = self.pos as nat;
        self.skip_blank_and_comments();
        let ghost p2 = self.pos as nat;
        let ghost w2 = self.warnings@;
        let conds = self.conditions();
        let ghost p3 = self.pos as nat;
        self.skip_blank_and_comments();
        proof {
            model::lemma_skip_blank(ls, p1);
            model::lemma_conditions(ls, p2, Seq::empty(), w2);
            model::lemma_skip_blank(ls, p3);
        }
        if self.pos >= self.lines.len() {
            return Err(Halt::Error(ParseError::MissingAction(self.pos + 1)));
        }
        let aline = self.pos + 1;
        let lv = slice_to_vec(self.lines[self.pos].as_slice());
        let ghost p4 = self.pos as nat;
        let (a, b) = trim_bounds(lv.as_slice());
        proof {
            lemma_offset_step(ls, p4);
            lemma_offset_mono(ls, p4 + 1, ls.len());
            lemma_encode_subrange(lv@, a as int, b as int);
            lemma_weight_mono(ls, st.pos, p4);
            lemma_weight_step(ls, p4);
            lemma_trim_len(ls[p4 as int]);
        }
        self.advance();
        let act = slice_subrange(lv.as_slice(), a, b);
        let action = match self.action(act, aline) {
            Ok(x) => x,
            Err(h) => {
                return Err(h);
            },
        };
        Ok(Recipe::new(flags, lockfile, conds, action))
    }

    /// The action of a recipe, its trimmed line `line` read already (see
    /// `model::action`).
    #[verifier::rlimit(40)]
    fn action(&mut self, line: &[char], ln: usize) -> (r: Result<Action, Halt>)
        requires
            old(self).wf(),
            encode_utf8(line@).len() < usize::MAX,
        ensures
            final(self).wf(),
            final(self).ls() == old(self).ls(),
            (action_result(r), final(self).state()) == model::action(
                old(self).ls(),
                old(self).state(),
                line@,
                ln as nat,
            ),
        decreases weight(old(self).ls(), old(self).state().pos) + line@.len() + 1, 1nat,
    {
        if line.len() > 0 && line[0] == '{' {
            let rest0 = slice_subrange(line, 1, line.len());
            assert(rest0@ =~= line@.skip(1));
            let (a, b) = trim_bounds(rest0);
            let rest = slice_subrange(rest0, a, b);
            if rest.len() > 0 && rest[rest.len() - 1] == '}' {
                let in0 = slice_subrange(rest, 0, rest.len() - 1);
                assert(in0@ =~= rest@.drop_last());
                let (c, d) = trim_bounds(in0);
                let inner = slice_subrange(in0, c, d);
                assert(inline_block(line@) == Some(inner@));
                if inner.len() == 0 {
                    let v: Vec<Item> = Vec::new();
                    assert(items_view(v@) =~= Seq::<ItemModel>::empty());
                    return Ok(Action::Nested(v));
                }
                proof {
                    assert(inner@ =~= line@.subrange(1 + a + c, 1 + a + d));
                    lemma_encode_subrange(line@, 1 + a + c, 1 + a + d);
                    lemma_inline_block_len(line@);
                    lemma_lines_weight(inner@);
                }
                let mut p = Parser::from_text(inner, self.depth);
                let r = p.items();
                match r {
                    Ok(v) => Ok(Action::Nested(v)),
                    Err(h) => Err(h),
                }
            } else {
                match self.block(ln) {
                    Ok(v) => Ok(Action::Nested(v)),
                    Err(h) => Err(h),
                }
            }
        } else {
            let full = self.continue_line(line);
            Ok(Action::parse_line_chars(full.as_slice()))
        }
    }

    /// A nested block opened on line `start` (see `model::block`).
    fn block(&mut self, start: usize) -> (r: Result<Vec<Item>, Halt>)
        requires
            old(self).wf(),
        ensures
            final(self).wf(),
            final(self).ls() == old(self).ls(),
            (items_result(r), final(self).state()) == model::block(
                old(self).ls(),
                old(self).state(),
                start as nat,
            ),
        decreases weight(old(self).ls(), old(self).state().pos), 5nat,
    {
        if self.depth >= MAX_DEPTH {
            return Err(Halt::Error(ParseError::TooDeep(start)));
        }
        self.depth = self.depth + 1;
        let ghost st1 = self.state();
        proof {
            model::lemma_block_items(self.ls(), st1, start as nat);
        }
        let r = self.block_items(start);
        match r {
            Ok(v) => {
                self.depth = self.depth - 1;
                Ok(v)
            },
            Err(h) => Err(h),
        }
    }

    /// The items of a nested block, past its closing `}` (see
    /// `model::block_items`).
    fn block_items(&mut self, start: usize) -> (r: Result<Vec<Item>, Halt>)
        requires
            old(self).wf(),
            old(self).depth >= 1,
        ensures
            final(self).wf(),
            final(self).ls() == old(self).ls(),
            (items_result(r), final(self).state()) == model::block_items(
                old(self).ls(),
                old(self).state(),
                start as nat,
            ),
        decreases weight(old(self).ls(), old(self).state().pos), 4nat,
    {
        let ghost ls = old(self).ls();
        let ghost st0 = old(self).state();
        let mut acc: Vec<Item> = Vec::new();
        assert(items_view(acc@) =~= Seq::<ItemModel>::empty());
        loop
            invariant
                self.wf(),
                self.ls() == ls,
                ls == old(self).ls(),
                st0 == old(self).state(),
                st0.pos <= self.pos,
                self.depth == old(self).depth,
                self.depth >= 1,
                model::block_items(ls, st0, start as nat) == after(
                    items_view(acc@),
                    model::block_items(ls, self.state(), start as nat),
                ),
            decreases self.lines@.len() - self.pos,
        {
            let ghost st = self.state();
            self.skip_blank_and_comments();
            proof {
                model::lemma_skip_blank(ls, st.pos);
                lemma_weight_mono(ls, st0.pos, self.pos as nat);
            }
            if self.pos >= self.lines.len() {
                self.depth = self.depth - 1;
                return Err(Halt::Error(ParseError::UnclosedBlock(start)));
            }
            let (a, b) = trim_bounds(self.lines[self.pos].as_slice());
            if a < b && self.lines[self.pos][a] == '}' {
                self.advance();
                assert(items_view(acc@) + Seq::<ItemModel>::empty() =~= items_view(acc@));
                return Ok(acc);
            }
            let ghost p1 = self.pos as nat;
            proof {
                model::lemma_next_item(ls, self.state());
            }
            match self.next_item() {
                Err(h) => {
                    return Err(h);
                },
                Ok(None) => {
                    self.depth = self.depth - 1;
                    return Err(Halt::Error(ParseError::UnclosedBlock(start)));
                },
                Ok(Some(it)) => {
                    let ghost before = acc@;
                    acc.push(it);
                    proof {
                        lemma_items_view_push(before, it);
                        let rest = model::block_items(ls, self.state(), start as nat);
                        if rest.0 is Ok {
                            assert(items_view(before) + (seq![item_view(it)] + rest.0->Ok_0) =~= items_view(
                                acc@,
                            ) + rest.0->Ok_0);
                        }
                    }
                },
            }
        }
    }

    /// All items from the next line on (see `model::items`).
    fn items(&mut self) -> (r: Result<Vec<Item>, Halt>)
        requires
            old(self).wf(),
        ensures
            final(self).wf(),
            final(self).ls() == old(self).ls(),
            (items_result(r), final(self).state()) == model::items(old(self).ls(), old(self).state()),
        decreases weight(old(self).ls(), old(self).state().pos), 6nat,
    {
        let ghost ls = old(self).ls();
        let ghost st0 = old(self).state();
        let mut acc: Vec<Item> = Vec::new();
        assert(items_view(acc@) =~= Seq::<ItemModel>::empty());
        loop
            invariant
                self.wf(),
                self.ls() == ls,
                ls == old(self).ls(),
                st0 == old(self).state(),
                st0.pos <= self.pos,
                model::items(ls, st0) == after(items_view(acc@), model::items(ls, self.state())),
            decreases self.lines@.len() - self.pos,
        {
            proof {
                model::lemma_next_item(ls, self.state());
                lemma_weight_mono(ls, st0.pos, self.pos as nat);
            }
            match self.next_item() {
                Err(h) => {
                    return Err(h);
                },
                Ok(None) => {
                    assert(items_view(acc@) + Seq::<ItemModel>::empty() =~= items_view(acc@));
                    return Ok(acc);
                },
                Ok(Some(it)) => {
                    let ghost before = acc@;
                    acc.push(it);
                    proof {
                        lemma_items_view_push(before, it);
                        let rest = model::items(ls, self.state());
                        if rest.0 is Ok {
                            assert(items_view(before) + (seq![item_view(it)] + rest.0->Ok_0) =~= items_view(
                                acc@,
                            ) + rest.0->Ok_0);
                        }
                    }
                },
            }
        }
    }
    /// Parse the rest of the rcfile into items.
    pub fn parse(&mut self) -> (r: Result<Vec<Item>, ParseError>)
        requires
            old(self).wf(),
            !split_halt(model::items(old(self).ls(), old(self).state()).0),
        ensures
            final(self).wf(),
            final(self).ls() == old(self).ls(),
            final(self).state() == model::items(old(self).ls(), old(self).state()).1,
            parsed(r) == model::items(old(self).ls(), old(self).state()).0,
    {
        match self.items() {
            Ok(v) => Ok(v),
            Err(Halt::Error(e)) => Err(e),
            Err(Halt::SplitChar) => {
                assert(false);
                Ok(Vec::new())
            },
        }
    }

    /// Parse a nested block opened on line `start`, up to and past its
    /// closing `}`.
    pub fn parse_block(&mut self, start: usize) -> (r: Result<Vec<Item>, ParseError>)
        requires
            old(self).wf(),
            !split_halt(model::block(old(self).ls(), old(self).state(), start as nat).0),
        ensures
            final(self).wf(),
            final(self).ls() == old(self).ls(),
            final(self).state() == model::block(old(self).ls(), old(self).state(), start as nat).1,
            parsed(r) == model::block(old(self).ls(), old(self).state(), start as nat).0,
    {
        match self.block(start) {
            Ok(v) => Ok(v),
            Err(Halt::Error(e)) => Err(e),
            Err(Halt::SplitChar) => {
                assert(false);
                Ok(Vec::new())
            },
        }
    }

    /// Parse a recipe whose header is the next line.
    pub fn parse_recipe(&mut self) -> (r: Result<Recipe, ParseError>)
        requires
            old(self).wf(),
            !split_halt(model::recipe(old(self).ls(), old(self).state()).0),
        ensures
            final(self).wf(),
            final(self).ls() == old(self).ls(),
            final(self).state() == model::recipe(old(self).ls(), old(self).state()).1,
            parsed_recipe(r) == model::recipe(old(self).ls(), old(self).state()).0,
    {
        match self.recipe() {
            Ok(x) => Ok(x),
            Err(Halt::Error(e)) => Err(e),
            Err(Halt::SplitChar) => {
                assert(false);
                Err(ParseError::UnexpectedEof(0))
            },
        }
    }
}

/// Parse an rcfile named `name` into items.
pub fn parse(input: &str, name: &str) -> (r: Result<Vec<Item>, ParseError>)
    requires
        encode_utf8(input@).len() < usize::MAX,
        !split_halt(parse_text(input@).0),
    ensures
        parsed(r) == parse_text(input@).0,
{
    let mut p = Parser::new(input);
    p.set_name(name);
    p.parse()
}

/// Parse an rcfile named `name` into items; `None` where a substitution's
/// delimiter takes more than one byte.
pub fn parse_checked(input: &str, name: &str) -> (r: Option<Result<Vec<Item>, ParseError>>)
    requires
        encode_utf8(input@).len() < usize::MAX,
    ensures
        r is None <==> split_halt(parse_text(input@).0),
        r matches Some(res) ==> parsed(res) == parse_text(input@).0,
{
    let mut p = Parser::new(input);
    p.set_name(name);
    match p.items() {
        Ok(v) => Some(Ok(v)),
        Err(Halt::Error(e)) => Some(Err(e)),
        Err(Halt::SplitChar) => None,
    }
}

} // verus!
