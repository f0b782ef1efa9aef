//! Condition lines of a recipe (`* ...`).

use vstd::prelude::*;
use vstd::slice::slice_subrange;

use crate::num::{is_float_chars, is_float_text, parse_unsigned, parse_unsigned_chars};
use crate::text::{
    find_char, find_char_in, find_str, find_str_in, lemma_skip_ws_all, skip_ws, skip_ws_from,
    starts_with_char, string_of_range, trim, trim_bounds, trim_start, chars_of, is_ascii_digit,
    ascii_digit, lemma_skip_ws_skip,
};

verus! {

/// Weight and exponent for scored conditions (`w^x` syntax), as written:
/// each reads as a floating-point number.
#[derive(Debug, Clone, PartialEq)]
pub struct Weight {
    /// Base weight per match.
    pub w: String,
    /// Decay exponent (weight for match N is w * x^N).
    pub x: String,
}

/// Comparison of a size condition.
#[derive(Debug, Clone, Copy, PartialEq, Eq, Structural)]
pub enum SizeOp {
    /// `<`: smaller than.
    Less,
    /// Equal to.
    Equal,
    /// `>`: larger than.
    Greater,
}

/// Model of a weight: its two numbers as written.
pub struct WeightModel {
    pub w: Seq<char>,
    pub x: Seq<char>,
}

/// Model of a condition.
pub enum ConditionModel {
    Regex { pattern: Seq<char>, negate: bool, weight: Option<WeightModel> },
    Size { op: SizeOp, bytes: u64, negate: bool, weight: Option<WeightModel> },
    Shell { cmd: Seq<char>, negate: bool, weight: Option<WeightModel> },
    Variable { name: Seq<char>, pattern: Seq<char>, weight: Option<WeightModel> },
    Subst { inner: Box<ConditionModel>, negate: bool },
}

/// A condition line in a recipe (starts with *)
#[derive(Debug, PartialEq)]
pub enum Condition {
    /// Regular expression match (possibly negated with `!`).
    Regex {
        /// Regex pattern string.
        pattern: String,
        /// `!` prefix inverts the match.
        negate: bool,
        /// Scoring weight (`w^x`).
        weight: Option<Weight>,
    },
    /// Size comparison (`<` or `>` bytes).
    Size {
        /// `Less` for `<`, `Greater` for `>`.
        op: SizeOp,
        /// Threshold in bytes.
        bytes: u64,
        /// `!` prefix inverts the test.
        negate: bool,
        /// Scoring weight (`w^x`).
        weight: Option<Weight>,
    },
    /// Shell command exit code (`?` prefix).
    Shell {
        /// Shell command to execute.
        cmd: String,
        /// `!` prefix inverts the exit code test.
        negate: bool,
        /// Scoring weight (`w^x`).
        weight: Option<Weight>,
    },
    /// Variable match (`VAR ?? pattern`).
    Variable {
        /// Variable name.
        name: String,
        /// Regex pattern to match against the variable value.
        pattern: String,
        /// Scoring weight (`w^x`).
        weight: Option<Weight>,
    },
    /// Substitution prefix (`$`): expand then reparse, may be negated.
    Subst {
        /// Inner condition after substitution.
        inner: Box<Condition>,
        /// `!` prefix inverts the result.
        negate: bool,
    },
}

/// The model of an optional weight.
pub open spec fn weight_model(w: Option<Weight>) -> Option<WeightModel> {
    match w {
        Some(w) => Some(WeightModel { w: w.w@, x: w.x@ }),
        None => None,
    }
}

impl View for Condition {
    type V = ConditionModel;

    open spec fn view(&self) -> ConditionModel
        decreases self,
    {
        match self {
            Condition::Regex { pattern, negate, weight } => ConditionModel::Regex {
                pattern: pattern@,
                negate: *negate,
                weight: weight_model(*weight),
            },
            Condition::Size { op, bytes, negate, weight } => ConditionModel::Size {
                op: *op,
                bytes: *bytes,
                negate: *negate,
                weight: weight_model(*weight),
            },
            Condition::Shell { cmd, negate, weight } => ConditionModel::Shell {
                cmd: cmd@,
                negate: *negate,
                weight: weight_model(*weight),
            },
            Condition::Variable { name, pattern, weight } => ConditionModel::Variable {
                name: name@,
                pattern: pattern@,
                weight: weight_model(*weight),
            },
            Condition::Subst { inner, negate } => ConditionModel::Subst {
                inner: Box::new((**inner).view()),
                negate: *negate,
            },
        }
    }
}

/// Index of the first character of `r` at or after `i` that is neither
/// a digit, `.` nor `-`.
pub open spec fn x_end(r: Seq<char>, i: nat) -> nat
    decreases r.len() - i,
{
    if i >= r.len() {
        r.len()
    } else if is_ascii_digit(r[i as int]) || r[i as int] == '.' || r[i as int] == '-' {
        x_end(r, i + 1)
    } else {
        i
    }
}

/// A `w^x` weight prefix of `s` and the text after it: `w` runs up to the
/// first `^` and `x` over the digits, dots and minus signs after it; both
/// must read as floating-point numbers, or there is no weight.
pub open spec fn weight_of(s0: Seq<char>) -> (Option<WeightModel>, Seq<char>) {
    let s = trim_start(s0);
    match find_char(s, '^') {
        None => (None, s),
        Some(c) => {
            let w = s.take(c as int);
            let rest = s.skip(c + 1 as int);
            let e = x_end(rest, 0);
            let x = rest.take(e as int);
            if is_float_text(w) && is_float_text(x) {
                (Some(WeightModel { w, x }), trim_start(rest.skip(e as int)))
            } else {
                (None, s)
            }
        },
    }
}

pub proof fn lemma_trim_start_len(s: Seq<char>)
    ensures
        trim_start(s).len() <= s.len(),
{
    lemma_skip_ws_all(s, 0);
}

/// The condition that `s` spells once weight and `!` are taken off.
pub open spec fn inner_of(s: Seq<char>, negate: bool, weight: Option<WeightModel>) -> Option<ConditionModel>
    decreases s.len(),
{
    if starts_with_char(s, '$') {
        proof {
            lemma_trim_start_len(s.skip(1));
        }
        match inner_of(trim_start(s.skip(1)), false, weight) {
            None => None,
            Some(c) => Some(ConditionModel::Subst { inner: Box::new(c), negate }),
        }
    } else if starts_with_char(s, '?') {
        Some(ConditionModel::Shell { cmd: trim_start(s.skip(1)), negate, weight })
    } else if starts_with_char(s, '<') || starts_with_char(s, '>') {
        match parse_unsigned(trim(s.skip(1)), u64::MAX as nat) {
            None => None,
            Some(b) => Some(
                ConditionModel::Size {
                    op: if s[0] == '<' { SizeOp::Less } else { SizeOp::Greater },
                    bytes: b as u64,
                    negate,
                    weight,
                },
            ),
        }
    } else {
        match find_str(s, seq!['?', '?']) {
            Some(p) => Some(
                ConditionModel::Variable {
                    name: trim(s.take(p as int)),
                    pattern: trim_start(s.skip(p + 2 as int)),
                    weight,
                },
            ),
            None => Some(
                ConditionModel::Regex {
                    pattern: if starts_with_char(s, '\\') { s.skip(1) } else { s },
                    negate,
                    weight,
                },
            ),
        }
    }
}

/// What `Condition::parse` makes of a condition line: nothing for an
/// empty line; otherwise an optional weight, an optional `!`, and the
/// condition proper.
pub open spec fn condition_of(s: Seq<char>) -> Option<ConditionModel> {
    let t = trim(s);
    if t.len() == 0 {
        None
    } else {
        let (weight, r) = weight_of(t);
        if starts_with_char(r, '!') {
            inner_of(trim_start(r.skip(1)), true, weight)
        } else {
            inner_of(r, false, weight)
        }
    }
}

/// Parse a `w^x` weight prefix; returns the weight and where the rest
/// starts.
fn parse_weight(v: &[char]) -> (r: (Option<Weight>, usize))
    ensures
        r.1 <= v@.len(),
        weight_model(r.0) == weight_of(v@).0,
        v@.subrange(r.1 as int, v@.len() as int) == weight_of(v@).1,
{
    let a = skip_ws_from(v, 0);
    let ghost s = trim_start(v@);
    assert(s =~= v@.subrange(a as int, v@.len() as int));
    let c = match find_char_in(v, '^', a) {
        Some(c) => c,
        None => {
            proof {
                crate::text::lemma_find_char_shift(v@, '^', a as int);
            }
            return (None, a);
        },
    };
    proof {
        crate::text::lemma_find_char_shift(v@, '^', a as int);
        assert(s.take(c - a) =~= v@.subrange(a as int, c as int));
        assert(s.skip(c - a + 1) =~= v@.subrange(c + 1, v@.len() as int));
    }
    assert(c < v.len());
    let wpart = slice_subrange(v, a, c);
    if !is_float_chars(wpart) {
        return (None, a);
    }
    let rest = slice_subrange(v, c + 1, v.len());
    let mut e: usize = 0;
    while e < rest.len() && (ascii_digit(rest[e]) || rest[e] == '.' || rest[e] == '-')
        invariant
            e <= rest@.len(),
            x_end(rest@, 0) == x_end(rest@, e as nat),
        decreases rest@.len() - e,
    {
        e += 1;
    }
    let xpart = slice_subrange(rest, 0, e);
    assert(xpart@ =~= rest@.take(e as int));
    if !is_float_chars(xpart) {
        return (None, a);
    }
    let after = c + 1 + e;
    let b = skip_ws_from(v, after);
    proof {
        lemma_skip_ws_skip(v@, b as nat, after as nat);
        let t = rest@.skip(e as int);
        assert(t =~= v@.skip(after as int));
        lemma_skip_ws_skip(v@, after as nat, after as nat);
        assert(trim_start(t) =~= v@.subrange(b as int, v@.len() as int));
    }
    let w = string_of_range(v, a, c);
    let x = string_of_range(rest, 0, e);
    (Some(Weight { w, x }), b)
}

fn parse_inner(v: &[char], negate: bool, weight: Option<Weight>) -> (r: Option<Condition>)
    ensures
        match r {
            Some(c) => inner_of(v@, negate, weight_model(weight)) == Some(c@),
            None => inner_of(v@, negate, weight_model(weight)) is None,
        },
    decreases v@.len(),
{
    if v.len() > 0 && v[0] == '$' {
        let a = skip_ws_from(v, 1);
        proof {
            lemma_skip_ws_skip(v@, a as nat, 1);
            lemma_skip_ws_skip(v@, 1, 1);
            assert(trim_start(v@.skip(1)) =~= v@.subrange(a as int, v@.len() as int));
        }
        let rest = slice_subrange(v, a, v.len());
        return match parse_inner(rest, false, weight) {
            None => None,
            Some(c) => Some(Condition::Subst { inner: Box::new(c), negate }),
        };
    }
    if v.len() > 0 && v[0] == '?' {
        let a = skip_ws_from(v, 1);
        proof {
            lemma_skip_ws_skip(v@, a as nat, 1);
            lemma_skip_ws_skip(v@, 1, 1);
            assert(trim_start(v@.skip(1)) =~= v@.subrange(a as int, v@.len() as int));
        }
        return Some(Condition::Shell { cmd: string_of_range(v, a, v.len()), negate, weight });
    }
    if v.len() > 0 && (v[0] == '<' || v[0] == '>') {
        let rest = slice_subrange(v, 1, v.len());
        assert(rest@ =~= v@.skip(1));
        let (ta, tb) = trim_bounds(rest);
        let digits = slice_subrange(rest, ta, tb);
        return match parse_unsigned_chars(digits, u64::MAX) {
            None => None,
            Some(b) => Some(
                Condition::Size {
                    op: if v[0] == '<' {
                        SizeOp::Less
                    } else {
                        SizeOp::Greater
                    },
                    bytes: b,
                    negate,
                    weight,
                },
            ),
        };
    }
    let qq = ['?', '?'];
    assert(qq@ =~= seq!['?', '?']);
    match find_str_in(v, &qq, 0) {
        Some(p) => {
            let name_part = slice_subrange(v, 0, p);
            assert(name_part@ =~= v@.take(p as int));
            let (na, nb) = trim_bounds(name_part);
            let name = string_of_range(name_part, na, nb);
            let a = skip_ws_from(v, p + 2);
            proof {
                lemma_skip_ws_skip(v@, a as nat, (p + 2) as nat);
                lemma_skip_ws_skip(v@, (p + 2) as nat, (p + 2) as nat);
                assert(trim_start(v@.skip(p + 2)) =~= v@.subrange(a as int, v@.len() as int));
            }
            Some(Condition::Variable { name, pattern: string_of_range(v, a, v.len()), weight })
        },
        None => {
            let start: usize = if v.len() > 0 && v[0] == '\\' {
                1
            } else {
                0
            };
            let pattern = string_of_range(v, start, v.len());
            assert(pattern@ == (if starts_with_char(v@, '\\') { v@.skip(1) } else { v@ }));
            Some(Condition::Regex { pattern, negate, weight })
        },
    }
}

impl Condition {
    /// Parse a condition line (without the leading *)
    pub fn parse(s: &str) -> (r: Option<Condition>)
        ensures
            match r {
                Some(c) => condition_of(s@) == Some(c@),
                None => condition_of(s@) is None,
            },
    {
        let v = chars_of(s);
        Self::parse_chars(v.as_slice())
    }

    /// `parse`, over characters.
    pub fn parse_chars(v: &[char]) -> (r: Option<Condition>)
        ensures
            match r {
                Some(c) => condition_of(v@) == Some(c@),
                None => condition_of(v@) is None,
            },
    {
        let (ta, tb) = trim_bounds(v);
        if ta == tb {
            return None;
        }
        let t = slice_subrange(v, ta, tb);
        let (weight, k) = parse_weight(t);
        if k < t.len() && t[k] == '!' {
            let a = skip_ws_from(t, k + 1);
            proof {
                lemma_skip_ws_skip(t@, a as nat, (k + 1) as nat);
                lemma_skip_ws_skip(t@, (k + 1) as nat, (k + 1) as nat);
                assert(t@.subrange(k as int, t@.len() as int).skip(1) =~= t@.skip(k + 1));
                assert(trim_start(t@.skip(k + 1)) =~= t@.subrange(a as int, t@.len() as int));
            }
            parse_inner(slice_subrange(t, a, t.len()), true, weight)
        } else {
            parse_inner(slice_subrange(t, k, t.len()), false, weight)
        }
    }
}

} // verus!
