//! Reading one logical line: inline comments, open quotes,
//! substitutions, assignments and recipe headers.

use vstd::prelude::*;
use vstd::slice::slice_subrange;
use vstd::utf8::encode_utf8;

use super::error::{ErrorModel, Halt, ParseError};
use super::lines::{lemma_encode_subrange, utf8_len};
use super::warning::ParseWarning;
use crate::config::{
    flags_model, flags_view, has, is_var_name_chars, item_view, opt_view, spec_is_var_name,
    unknown_flags, Flags, FlagsModel, Item, ItemModel,
};
use crate::text::{
    alphanumeric, ascii_digit, back_ws_from, chars_eq, chars_of, contains_char, find_char,
    find_char_from, find_char_in, find_str, find_str_in, is_alphanumeric, is_ascii_digit,
    lemma_back_ws_take, rfind_char, rfind_char_in, starts_with_char, string_from, trim, trim_bounds,
    trim_end, trim_start,
};

verus! {

/// The model of an optional item.
pub open spec fn opt_item(o: Option<Item>) -> Option<ItemModel> {
    match o {
        Some(it) => Some(item_view(it)),
        None => None,
    }
}

/// Index of the first `#` at or after `i` (and after the first character)
/// that follows a blank or a tab.
pub open spec fn comment_from(s: Seq<char>, i: nat) -> Option<nat>
    decreases s.len() - i,
{
    if i >= s.len() {
        None
    } else if i >= 1 && s[i as int] == '#' && (s[i - 1] == ' ' || s[i - 1] == '\t') {
        Some(i)
    } else {
        comment_from(s, i + 1)
    }
}

/// `s` without its inline comment: a `#` that follows a blank or a tab
/// starts one, and the blanks before it go with it; a `#` inside a word
/// is kept.
pub open spec fn uncommented(s: Seq<char>) -> Seq<char> {
    match comment_from(s, 1) {
        Some(i) => trim_end(s.take(i as int)),
        None => s,
    }
}

/// Length of `v` once its inline comment is stripped: `v` up to that
/// length is `uncommented(v)`.
pub fn strip_comment(v: &[char]) -> (r: usize)
    ensures
        r <= v@.len(),
        v@.take(r as int) == uncommented(v@),
{
    if v.len() == 0 {
        assert(v@.take(0) =~= v@);
        return 0;
    }
    let mut i: usize = 1;
    while i < v.len()
        invariant
            1 <= i <= v@.len(),
            comment_from(v@, 1) == comment_from(v@, i as nat),
        decreases v@.len() - i,
    {
        if v[i] == '#' && (v[i - 1] == ' ' || v[i - 1] == '\t') {
            let e = back_ws_from(v, i);
            proof {
                lemma_back_ws_take(v@, i as int, i as int);
                assert(v@.take(i as int).len() == i);
            }
            assert(v@.take(i as int).take(e as int) =~= v@.take(e as int));
            return e;
        }
        i += 1;
    }
    assert(v@.take(v@.len() as int) =~= v@);
    v.len()
}

/// The quote state after one more character: the quote that is open, if
/// any, and whether a backslash escapes the next character. A backslash
/// escapes outside single quotes; a quote of the other kind inside quotes
/// is literal.
pub open spec fn quote_step(q: Option<char>, esc: bool, c: char) -> (Option<char>, bool) {
    if esc {
        (q, false)
    } else if c == '\\' && q != Some('\'') {
        (q, true)
    } else {
        match q {
            None => if c == '"' || c == '\'' {
                (Some(c), false)
            } else {
                (None, false)
            },
            Some(o) => if c == o {
                (None, false)
            } else {
                (q, false)
            },
        }
    }
}

/// The quote state at the end of `s`.
pub open spec fn quote_state(s: Seq<char>) -> (Option<char>, bool)
    decreases s.len(),
{
    if s.len() == 0 {
        (None, false)
    } else {
        let prev = quote_state(s.drop_last());
        quote_step(prev.0, prev.1, s.last())
    }
}

/// `s` leaves a `"` or `'` open.
pub open spec fn unclosed_quote(s: Seq<char>) -> bool {
    quote_state(s).0 is Some
}

/// Whether `v` holds an unmatched `"` or `'`.
pub fn has_unclosed_quote(v: &[char]) -> (b: bool)
    ensures
        b == unclosed_quote(v@),
{
    let mut q: Option<char> = None;
    let mut esc = false;
    let mut i: usize = 0;
    while i < v.len()
        invariant
            i <= v@.len(),
            (q, esc) == quote_state(v@.take(i as int)),
        decreases v@.len() - i,
    {
        let c = v[i];
        assert(v@.take(i + 1).drop_last() =~= v@.take(i as int));
        let in_single = match q {
            Some(o) => o == '\'',
            None => false,
        };
        if esc {
            esc = false;
        } else if c == '\\' && !in_single {
            esc = true;
        } else {
            match q {
                None => {
                    if c == '"' || c == '\'' {
                        q = Some(c);
                    }
                },
                Some(o) => {
                    if c == o {
                        q = None;
                    }
                },
            }
        }
        i += 1;
    }
    assert(v@.take(v@.len() as int) =~= v@);
    q.is_some()
}

/// `s` without the double or single quotes that enclose it, if they do.
pub open spec fn unquoted(s: Seq<char>) -> Seq<char> {
    if s.len() >= 2 && (s[0] == '"' || s[0] == '\'') && s.last() == s[0] {
        s.subrange(1, s.len() - 1)
    } else {
        s
    }
}

/// `VAR =~ rhs`: the variable name and the trimmed right-hand side, out of
/// the quotes that may enclose it, when the text before the first `=~` is
/// a variable name.
pub open spec fn subst_rhs(s: Seq<char>) -> Option<(Seq<char>, Seq<char>)> {
    match find_str(s, seq!['=', '~']) {
        None => None,
        Some(p) => {
            let name = trim(s.take(p as int));
            if spec_is_var_name(name) {
                Some((name, unquoted(trim(s.skip((p + 2) as int)))))
            } else {
                None
            }
        },
    }
}

/// The delimiter of a substitution: the character after the `s` that
/// opens the right-hand side, when it is neither alphabetic nor numeric.
pub open spec fn subst_delim(s: Seq<char>) -> Option<char> {
    match subst_rhs(s) {
        Some((_, rhs)) => if rhs.len() >= 2 && rhs[0] == 's' && !alphanumeric(rhs[1]) {
            Some(rhs[1])
        } else {
            None
        },
        None => None,
    }
}

/// The delimiter takes more than one byte, so that slicing the
/// right-hand side two bytes in would cut it.
pub open spec fn splits_char(s: Seq<char>) -> bool {
    match subst_delim(s) {
        Some(d) => d as u32 >= 0x80,
        None => false,
    }
}

/// `VAR =~ s/pattern/replace/flags` with a one-byte delimiter: the item,
/// `g` in the flags for a global and `i` for a case-blind substitution.
pub open spec fn subst_of(s: Seq<char>, ln: nat) -> Option<ItemModel> {
    match (subst_rhs(s), subst_delim(s)) {
        (Some((name, rhs)), Some(d)) => if d as u32 >= 0x80 {
            None
        } else {
            let rest = rhs.skip(2);
            match find_char(rest, d) {
                None => None,
                Some(mid) => {
                    let after = rest.skip((mid + 1) as int);
                    match find_char(after, d) {
                        None => None,
                        Some(end) => {
                            let flags = after.skip((end + 1) as int);
                            Some(
                                ItemModel::Subst {
                                    name,
                                    pattern: rest.take(mid as int),
                                    replace: after.take(end as int),
                                    global: has(flags, 'g'),
                                    case_insensitive: has(flags, 'i'),
                                    line: ln,
                                },
                            )
                        },
                    }
                },
            }
        },
        _ => None,
    }
}

/// Parse `VAR =~ s/pat/rep/flags`; halts where the delimiter takes more
/// than one byte.
pub fn parse_subst(v: &[char], ln: usize) -> (r: Result<Option<Item>, Halt>)
    ensures
        r is Err <==> splits_char(v@),
        r matches Err(h) ==> h is SplitChar,
        r matches Ok(o) ==> opt_item(o) == subst_of(v@, ln as nat),
{
    let op = ['=', '~'];
    let ops = op.as_slice();
    assert(ops@ =~= seq!['=', '~']);
    let p = match find_str_in(v, ops, 0) {
        Some(p) => p,
        None => {
            return Ok(None);
        },
    };
    let left = slice_subrange(v, 0, p);
    let (a, b) = trim_bounds(left);
    let name = slice_subrange(left, a, b);
    assert(left@ =~= v@.take(p as int));
    if !is_var_name_chars(name) {
        return Ok(None);
    }
    let n = v.len();
    assert(p + 2 <= n);
    let right = slice_subrange(v, p + 2, v.len());
    assert(right@ =~= v@.skip(p + 2));
    let (c, d) = trim_bounds(right);
    let trimmed = slice_subrange(right, c, d);
    let k = trimmed.len();
    let quoted = k >= 2 && (trimmed[0] == '"' || trimmed[0] == '\'') && trimmed[k - 1] == trimmed[0];
    let rhs = if quoted {
        slice_subrange(trimmed, 1, k - 1)
    } else {
        trimmed
    };
    assert(rhs@ == unquoted(trimmed@));
    if rhs.len() < 2 || rhs[0] != 's' {
        return Ok(None);
    }
    let delim = rhs[1];
    if is_alphanumeric(delim) {
        return Ok(None);
    }
    if (delim as u32) >= 0x80 {
        return Err(Halt::SplitChar);
    }
    let rest = slice_subrange(rhs, 2, rhs.len());
    assert(rest@ =~= rhs@.skip(2));
    let mid = match find_char_in(rest, delim, 0) {
        Some(m) => m,
        None => {
            return Ok(None);
        },
    };
    let after = slice_subrange(rest, mid + 1, rest.len());
    assert(after@ =~= rest@.skip(mid + 1));
    let end = match find_char_in(after, delim, 0) {
        Some(e) => e,
        None => {
            return Ok(None);
        },
    };
    let flags = slice_subrange(after, end + 1, after.len());
    assert(flags@ =~= after@.skip(end + 1));
    let pattern = slice_subrange(rest, 0, mid);
    assert(pattern@ =~= rest@.take(mid as int));
    let replace = slice_subrange(after, 0, end);
    assert(replace@ =~= after@.take(end as int));
    Ok(
        Some(
            Item::Subst {
                name: string_from(name),
                pattern: string_from(pattern),
                replace: string_from(replace),
                global: contains_char(flags, 'g'),
                case_insensitive: contains_char(flags, 'i'),
                line: ln,
            },
        ),
    )
}

/// `NAME=value` (an assignment, or `INCLUDERC`/`SWITCHRC`), or a bare
/// `NAME` (an unset, or `SWITCHRC` to stop), when the name is a variable
/// name. The value is trimmed and loses its inline comment.
pub open spec fn assignment_of(s: Seq<char>, ln: nat) -> Option<ItemModel> {
    match find_char(s, '=') {
        Some(eq) => {
            let name = trim(s.take(eq as int));
            let value = uncommented(trim(s.skip((eq + 1) as int)));
            if !spec_is_var_name(name) {
                None
            } else if name == "INCLUDERC"@ {
                Some(ItemModel::Include { path: value, line: ln })
            } else if name == "SWITCHRC"@ {
                Some(ItemModel::Switch { path: value, line: ln })
            } else {
                Some(ItemModel::Assign { name, value, line: ln })
            }
        },
        None => {
            let name = trim(s);
            if !spec_is_var_name(name) {
                None
            } else if name == "SWITCHRC"@ {
                Some(ItemModel::Switch { path: Seq::empty(), line: ln })
            } else {
                Some(ItemModel::Assign { name, value: Seq::empty(), line: ln })
            }
        },
    }
}

/// Parse an assignment line.
pub fn parse_assignment(v: &[char], ln: usize) -> (r: Option<Item>)
    ensures
        opt_item(r) == assignment_of(v@, ln as nat),
{
    let includerc = chars_of("INCLUDERC");
    let switchrc = chars_of("SWITCHRC");
    match find_char_in(v, '=', 0) {
        Some(eq) => {
            let n = v.len();
            assert(eq < n);
            let left = slice_subrange(v, 0, eq);
            assert(left@ =~= v@.take(eq as int));
            let (a, b) = trim_bounds(left);
            let name = slice_subrange(left, a, b);
            let right = slice_subrange(v, eq + 1, v.len());
            assert(right@ =~= v@.skip(eq + 1));
            let (c, d) = trim_bounds(right);
            let rt = slice_subrange(right, c, d);
            let e = strip_comment(rt);
            let value = slice_subrange(rt, 0, e);
            assert(value@ =~= rt@.take(e as int));
            if !is_var_name_chars(name) {
                None
            } else if chars_eq(name, includerc.as_slice()) {
                Some(Item::Include { path: string_from(value), line: ln })
            } else if chars_eq(name, switchrc.as_slice()) {
                Some(Item::Switch { path: string_from(value), line: ln })
            } else {
                Some(Item::Assign { name: string_from(name), value: string_from(value), line: ln })
            }
        },
        None => {
            let (a, b) = trim_bounds(v);
            let name = slice_subrange(v, a, b);
            if !is_var_name_chars(name) {
                None
            } else if chars_eq(name, switchrc.as_slice()) {
                let path = String::new();
                assert(path@ =~= Seq::<char>::empty());
                Some(Item::Switch { path, line: ln })
            } else {
                let value = String::new();
                assert(value@ =~= Seq::<char>::empty());
                Some(Item::Assign { name: string_from(name), value, line: ln })
            }
        },
    }
}

/// Index past the ASCII digits of `s` from `i`.
pub open spec fn digits_end(s: Seq<char>, i: nat) -> nat
    decreases s.len() - i,
{
    if i < s.len() && is_ascii_digit(s[i as int]) {
        digits_end(s, i + 1)
    } else {
        i
    }
}

/// The flags text and the lockfile of a header line that starts with
/// `:`: past the `:` and the legacy number, the text before the last `:`
/// holds the flags and the text after it names the lockfile (empty for
/// one named automatically); without a second `:` there is no lockfile.
pub open spec fn header_parts(t: Seq<char>) -> (Seq<char>, Option<Seq<char>>) {
    let l1 = t.skip(1);
    let l3 = trim_start(l1.skip(digits_end(l1, 0) as int));
    match rfind_char(l3, ':') {
        Some(c) => (trim(l3.take(c as int)), Some(trim(l3.skip((c + 1) as int)))),
        None => (l3, None),
    }
}

/// Where flag `f` first occurs in `orig`, in bytes, counted from `off`
/// (from `off` itself when it does not occur).
pub open spec fn flag_span(orig: Seq<char>, off: nat, f: char) -> nat {
    off + match find_char(orig, f) {
        Some(i) => encode_utf8(orig.take(i as int)).len(),
        None => 0,
    }
}

/// A warning for each unknown flag, in order.
pub open spec fn flag_warnings(orig: Seq<char>, off: nat, unknown: Seq<char>) -> Seq<ParseWarning>
    decreases unknown.len(),
{
    if unknown.len() == 0 {
        Seq::empty()
    } else {
        flag_warnings(orig, off, unknown.drop_last()).push(
            ParseWarning::UnknownFlag {
                flag: unknown.last(),
                span: flag_span(orig, off, unknown.last()) as usize,
            },
        )
    }
}

/// A recipe header line found at byte `off`: its flags, its lockfile and
/// a warning for each unknown flag; an error (with the line, trimmed and
/// without its comment) when it does not start with `:`.
pub open spec fn header_of(orig: Seq<char>, ln: nat, off: nat) -> Result<
    (FlagsModel, Option<Seq<char>>, Seq<ParseWarning>),
    ErrorModel,
> {
    let t = uncommented(trim(orig));
    if !starts_with_char(t, ':') {
        Err(ErrorModel::Invalid(ln, t))
    } else {
        let (fl, lock) = header_parts(t);
        Ok((flags_model(fl), lock, flag_warnings(orig, off, unknown_flags(fl))))
    }
}

/// The warnings for unknown flags of a header found at byte `off`.
fn flag_warning_list(orig: &[char], off: usize, unknown: &[char]) -> (w: Vec<ParseWarning>)
    requires
        off + encode_utf8(orig@).len() <= usize::MAX,
    ensures
        w@ == flag_warnings(orig@, off as nat, unknown@),
{
    let mut warns: Vec<ParseWarning> = Vec::new();
    let mut i: usize = 0;
    while i < unknown.len()
        invariant
            i <= unknown@.len(),
            off + encode_utf8(orig@).len() <= usize::MAX,
            warns@ == flag_warnings(orig@, off as nat, unknown@.take(i as int)),
        decreases unknown@.len() - i,
    {
        let f = unknown[i];
        let fpos = match find_char_in(orig, f, 0) {
            Some(j) => {
                let pre = slice_subrange(orig, 0, j);
                proof {
                    lemma_encode_subrange(orig@, 0, j as int);
                    assert(pre@ =~= orig@.take(j as int));
                }
                utf8_len(pre)
            },
            None => 0,
        };
        let sp = off + fpos;
        assert(sp == flag_span(orig@, off as nat, f));
        assert(unknown@.take(i + 1).drop_last() =~= unknown@.take(i as int));
        assert(unknown@.take(i + 1).last() == f);
        warns.push(ParseWarning::UnknownFlag { flag: f, span: sp });
        i += 1;
    }
    assert(unknown@.take(i as int) =~= unknown@);
    warns
}

/// Parse a recipe header line found at byte `off` of the rcfile.
pub fn parse_header(orig: &[char], ln: usize, off: usize) -> (r: Result<
    (Flags, Option<String>, Vec<ParseWarning>),
    ParseError,
>)
    requires
        off + encode_utf8(orig@).len() <= usize::MAX,
    ensures
        match r {
            Ok((f, lock, w)) => header_of(orig@, ln as nat, off as nat) == Ok::<
                (FlagsModel, Option<Seq<char>>, Seq<ParseWarning>),
                ErrorModel,
            >((flags_view(f), opt_view(lock), w@)),
            Err(e) => header_of(orig@, ln as nat, off as nat) == Err::<
                (FlagsModel, Option<Seq<char>>, Seq<ParseWarning>),
                ErrorModel,
            >(e@),
        },
{
    let (a, b) = trim_bounds(orig);
    let tr = slice_subrange(orig, a, b);
    let e = strip_comment(tr);
    let t = slice_subrange(tr, 0, e);
    assert(t@ =~= tr@.take(e as int));
    if t.len() == 0 || t[0] != ':' {
        return Err(ParseError::Invalid(ln, string_from(t)));
    }
    let l1 = slice_subrange(t, 1, t.len());
    assert(l1@ =~= t@.skip(1));
    let mut k: usize = 0;
    while k < l1.len() && ascii_digit(l1[k])
        invariant
            k <= l1@.len(),
            digits_end(l1@, 0) == digits_end(l1@, k as nat),
        decreases l1@.len() - k,
    {
        k += 1;
    }
    let l2 = slice_subrange(l1, k, l1.len());
    assert(l2@ =~= l1@.skip(k as int));
    let (c, _) = trim_bounds(l2);
    let l3 = slice_subrange(l2, c, l2.len());
    let (flags, lock) = match rfind_char_in(l3, ':', l3.len()) {
        Some(colon) => {
            let fpart = slice_subrange(l3, 0, colon);
            assert(fpart@ =~= l3@.take(colon as int));
            let (fa, fb) = trim_bounds(fpart);
            let lpart = slice_subrange(l3, colon + 1, l3.len());
            assert(lpart@ =~= l3@.skip(colon + 1));
            let (la, lb) = trim_bounds(lpart);
            (Flags::parse_chars(slice_subrange(fpart, fa, fb)), Some(string_from(slice_subrange(lpart, la, lb))))
        },
        None => (Flags::parse_chars(l3), None),
    };
    let warns = flag_warning_list(orig, off, flags.unknown.as_slice());
    Ok((flags, lock, warns))
}

} // verus!
