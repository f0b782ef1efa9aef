//! Properties of header-field lists that hold across operations.

use vstd::prelude::*;

use super::list::{
    any_match, concat_all, flat, flat_unfolded, keep_first_pred, keep_last_pred,
    keep_unmatched, select, unfolded_text,
};
use super::{model_concatenated, model_is_from_line, model_matches, FieldModel, NL};

verus! {

/// Number of fields of `s` that match `pattern`.
pub open spec fn count_matching(s: Seq<FieldModel>, pattern: Seq<u8>) -> nat
    decreases s.len(),
{
    if s.len() == 0 {
        0
    } else {
        count_matching(s.drop_last(), pattern) + if model_matches(s.last(), pattern) {
            1nat
        } else {
            0nat
        }
    }
}

/// No newline stands in the name part of the field.
pub open spec fn name_has_no_newline(f: FieldModel) -> bool {
    forall|i: int| 0 <= i < f.name_len && i < f.text.len() ==> #[trigger] f.text[i] != NL
}

proof fn lemma_take_push(s: Seq<FieldModel>, n: int)
    requires
        0 <= n < s.len(),
    ensures
        s.take(n + 1).drop_last() == s.take(n),
        s.take(n + 1).last() == s[n],
        s.take(n + 1).len() - 1 == n,
{
    assert(s.take(n + 1).drop_last() =~= s.take(n));
}

proof fn lemma_any_match_push(s: Seq<FieldModel>, n: int, pattern: Seq<u8>)
    requires
        0 <= n < s.len(),
    ensures
        any_match(s.take(n + 1), pattern) == (any_match(s.take(n), pattern) || model_matches(s[n], pattern)),
{
    if any_match(s.take(n), pattern) {
        let k = choose|k: int| 0 <= k < s.take(n).len() && model_matches(#[trigger] s.take(n)[k], pattern);
        assert(s.take(n + 1)[k] == s.take(n)[k]);
    }
    if model_matches(s[n], pattern) {
        assert(s.take(n + 1)[n] == s[n]);
    }
    if any_match(s.take(n + 1), pattern) && !model_matches(s[n], pattern) {
        let k = choose|k: int| 0 <= k < s.take(n + 1).len() && model_matches(#[trigger] s.take(n + 1)[k], pattern);
        assert(k != n);
        assert(s.take(n)[k] == s.take(n + 1)[k]);
    }
}

proof fn lemma_remove_all_count(s: Seq<FieldModel>, pattern: Seq<u8>, n: int)
    requires
        0 <= n <= s.len(),
    ensures
        count_matching(select(s.take(n), keep_unmatched(s, pattern)), pattern) == 0,
    decreases n,
{
    if n > 0 {
        lemma_take_push(s, n - 1);
        lemma_remove_all_count(s, pattern, n - 1);
        let prev = select(s.take(n - 1), keep_unmatched(s, pattern));
        if !model_matches(s[n - 1], pattern) {
            assert(prev.push(s[n - 1]).drop_last() =~= prev);
        }
    }
}

/// After `remove_all`, no field matches the pattern.
pub proof fn law_remove_all_leaves_none(s: Seq<FieldModel>, pattern: Seq<u8>)
    ensures
        count_matching(select(s, keep_unmatched(s, pattern)), pattern) == 0,
{
    lemma_remove_all_count(s, pattern, s.len() as int);
    assert(s.take(s.len() as int) =~= s);
}

proof fn lemma_keep_first_count(s: Seq<FieldModel>, pattern: Seq<u8>, n: int)
    requires
        0 <= n <= s.len(),
    ensures
        count_matching(select(s.take(n), keep_first_pred(s, pattern)), pattern) == if any_match(
            s.take(n),
            pattern,
        ) {
            1nat
        } else {
            0nat
        },
    decreases n,
{
    if n == 0 {
        assert(!any_match(s.take(0), pattern));
    } else {
        lemma_take_push(s, n - 1);
        lemma_keep_first_count(s, pattern, n - 1);
        lemma_any_match_push(s, n - 1, pattern);
        let prev = select(s.take(n - 1), keep_first_pred(s, pattern));
        assert(prev.push(s[n - 1]).drop_last() =~= prev);
    }
}

/// After `keep_first`, exactly one field matches the pattern when one
/// did before, and none otherwise.
pub proof fn law_keep_first_leaves_one(s: Seq<FieldModel>, pattern: Seq<u8>)
    ensures
        count_matching(select(s, keep_first_pred(s, pattern)), pattern) == if any_match(s, pattern) {
            1nat
        } else {
            0nat
        },
{
    lemma_keep_first_count(s, pattern, s.len() as int);
    assert(s.take(s.len() as int) =~= s);
}

proof fn lemma_any_match_skip(s: Seq<FieldModel>, n: int, pattern: Seq<u8>)
    requires
        0 <= n < s.len(),
    ensures
        any_match(s.skip(n), pattern) == (model_matches(s[n], pattern) || any_match(s.skip(n + 1), pattern)),
{
    assert(s.skip(n)[0] == s[n]);
    if any_match(s.skip(n + 1), pattern) {
        let k = choose|k: int| 0 <= k < s.skip(n + 1).len() && model_matches(#[trigger] s.skip(n + 1)[k], pattern);
        assert(s.skip(n)[k + 1] == s.skip(n + 1)[k]);
    }
    if any_match(s.skip(n), pattern) && !model_matches(s[n], pattern) {
        let k = choose|k: int| 0 <= k < s.skip(n).len() && model_matches(#[trigger] s.skip(n)[k], pattern);
        assert(k != 0);
        assert(s.skip(n + 1)[k - 1] == s.skip(n)[k]);
    }
}

proof fn lemma_keep_last_count(s: Seq<FieldModel>, pattern: Seq<u8>, n: int)
    requires
        0 <= n <= s.len(),
    ensures
        count_matching(select(s.take(n), keep_last_pred(s, pattern)), pattern) + (if any_match(
            s.skip(n),
            pattern,
        ) {
            1nat
        } else {
            0nat
        }) == if any_match(s, pattern) {
            1nat
        } else {
            0nat
        },
        any_match(s.skip(n), pattern) ==> count_matching(select(s.take(n), keep_last_pred(s, pattern)), pattern) == 0,
    decreases n,
{
    if n == 0 {
        assert(s.skip(0) =~= s);
    } else {
        lemma_take_push(s, n - 1);
        lemma_keep_last_count(s, pattern, n - 1);
        lemma_any_match_skip(s, n - 1, pattern);
        let prev = select(s.take(n - 1), keep_last_pred(s, pattern));
        assert(prev.push(s[n - 1]).drop_last() =~= prev);
    }
}

/// After `keep_last`, exactly one field matches the pattern when one did
/// before, and none otherwise.
pub proof fn law_keep_last_leaves_one(s: Seq<FieldModel>, pattern: Seq<u8>)
    ensures
        count_matching(select(s, keep_last_pred(s, pattern)), pattern) == if any_match(s, pattern) {
            1nat
        } else {
            0nat
        },
{
    lemma_keep_last_count(s, pattern, s.len() as int);
    assert(s.take(s.len() as int) =~= s);
    assert(!any_match(s.skip(s.len() as int), pattern));
}

/// Unfolding a list gives the bytes of the list with its continuation
/// lines concatenated, when no field name holds a newline.
pub proof fn law_unfold_is_concatenate_then_write(s: Seq<FieldModel>)
    requires
        forall|i: int| 0 <= i < s.len() ==> name_has_no_newline(#[trigger] s[i]),
    ensures
        flat_unfolded(s) == flat(concat_all(s)),
    decreases s.len(),
{
    if s.len() > 0 {
        let f = s.last();
        assert(name_has_no_newline(s[s.len() - 1]));
        assert forall|i: int| 0 <= i < s.drop_last().len() implies name_has_no_newline(
            #[trigger] s.drop_last()[i],
        ) by {
            assert(s.drop_last()[i] == s[i]);
        }
        law_unfold_is_concatenate_then_write(s.drop_last());
        assert(concat_all(s).drop_last() =~= concat_all(s.drop_last()));
        assert(unfolded_text(f) =~= model_concatenated(f).text);
    }
}

} // verus!
