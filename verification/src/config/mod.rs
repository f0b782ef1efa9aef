//! Rcfile grammar: recipes, conditions, actions and assignments.

use vstd::prelude::*;

mod action;
mod condition;
pub use action::{
    action_of, action_view, capture_of, dupe_of, first_ws, opt_view, strings_view, word_end, words,
    words_from, words_in, Action, ActionModel,
};
mod recipe;
pub mod dump;
pub mod parser;
pub use parser::{parse, parse_checked, ParseError, ParseWarning, Parser};
pub use condition::{
    condition_of, inner_of, weight_model, weight_of, x_end, Condition, ConditionModel, SizeOp,
    Weight, WeightModel,
};
pub use recipe::{
    conds_view, flags_model, flags_of, flags_view, grep_parts, has, header_op_of, is_flag_char,
    item_view, items_view, op_field, op_rest, op_value, pass_parts, recipe_view, unknown_flags,
    Flags, FlagsModel, HeaderOp, HeaderOpModel, Item, ItemModel, MailParts, Recipe, RecipeModel,
};

use crate::text::{ascii_alpha, ascii_digit, chars_of, is_ascii_alnum, is_ascii_alpha};

verus! {

/// A variable name: an ASCII letter or `_`, then ASCII letters, digits
/// or `_`.
pub open spec fn spec_is_var_name(s: Seq<char>) -> bool {
    &&& s.len() > 0
    &&& (is_ascii_alpha(s[0]) || s[0] == '_')
    &&& forall|i: int| 1 <= i < s.len() ==> (is_ascii_alnum(#[trigger] s[i]) || s[i] == '_')
}

/// Check if a string is a valid variable name (letters, digits,
/// underscore, starting with letter or underscore).
pub fn is_var_name(s: &str) -> (b: bool)
    ensures
        b == spec_is_var_name(s@),
{
    let v = chars_of(s);
    is_var_name_chars(v.as_slice())
}

/// `is_var_name` over characters.
pub fn is_var_name_chars(v: &[char]) -> (b: bool)
    ensures
        b == spec_is_var_name(v@),
{
    if v.len() == 0 {
        return false;
    }
    if !(ascii_alpha(v[0]) || v[0] == '_') {
        return false;
    }
    let mut i: usize = 1;
    while i < v.len()
        invariant
            1 <= i <= v@.len(),
            forall|j: int| 1 <= j < i ==> (is_ascii_alnum(#[trigger] v@[j]) || v@[j] == '_'),
        decreases v@.len() - i,
    {
        let c = v[i];
        if !(ascii_alpha(c) || ascii_digit(c) || c == '_') {
            return false;
        }
        i += 1;
    }
    true
}

} // verus!
