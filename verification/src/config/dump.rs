//! Human-readable dump of an rcfile: recipe flags, substitution flags,
//! conditions, actions and items.

use vstd::prelude::*;

mod layout;
pub use layout::{
    action_doc, bool_text, cond_doc, conds_doc, debug_text, delivering, dump_items, fmt_action,
    fmt_cond, fmt_item_str, fmt_recipe, indent, item_doc, items_doc, lines_doc, listing_doc,
    lock_doc, neg_mark, op_debug, op_name, pieces_view, printable, printable_action, printable_item,
    printable_items, printable_recipe, recipe_doc, rel_text, txt, weight_doc, Piece, PieceModel,
};

use super::recipe::{Flags, MailParts};
use crate::text::{chars_of, string_from};

verus! {

/// `parts` joined with `sep` between each two.
#[verifier::opaque]
pub open spec fn joined(parts: Seq<Seq<char>>, sep: Seq<char>) -> Seq<char>
    decreases parts.len(),
{
    if parts.len() == 0 {
        Seq::empty()
    } else if parts.len() == 1 {
        parts[0]
    } else {
        joined(parts.drop_last(), sep) + sep + parts.last()
    }
}

/// `p` when `b` holds, nothing otherwise.
pub open spec fn phrase_if(b: bool, p: Seq<char>) -> Seq<Seq<char>> {
    if b {
        seq![p]
    } else {
        Seq::empty()
    }
}

/// The phrase for the parts that are grepped.
pub open spec fn grep_phrase(g: MailParts) -> Seq<char> {
    match g {
        MailParts::Full => "HB (grep header+body)"@,
        MailParts::Headers => "H (grep header)"@,
        MailParts::Body => "B (grep body)"@,
    }
}

/// The phrase for the parts that are passed on, if not the whole message.
pub open spec fn pass_phrases(p: MailParts) -> Seq<Seq<char>> {
    match p {
        MailParts::Full => Seq::empty(),
        MailParts::Headers => seq!["h (pass header)"@],
        MailParts::Body => seq!["b (pass body)"@],
    }
}

/// The phrases for what is grepped and for the flags that steer the
/// chain of recipes.
pub open spec fn chain_phrases(f: Flags) -> Seq<Seq<char>> {
    seq![grep_phrase(f.grep)] + phrase_if(f.case, "D (case-sensitive)"@) + phrase_if(
        f.chain,
        "A (chain on match)"@,
    ) + phrase_if(f.succ, "a (chain on success)"@) + phrase_if(f.else_, "E (else branch)"@)
        + phrase_if(f.err, "e (error handler)"@)
}

/// The phrases for the flags that steer delivery.
pub open spec fn delivery_phrases(f: Flags) -> Seq<Seq<char>> {
    pass_phrases(f.pass) + phrase_if(f.filter, "f (filter)"@) + phrase_if(f.copy, "c (copy)"@)
        + phrase_if(f.wait && f.quiet, "W (wait quietly)"@) + phrase_if(
        f.wait && !f.quiet,
        "w (wait)"@,
    ) + phrase_if(f.ignore, "i (ignore errors)"@) + phrase_if(f.raw, "r (raw)"@)
}

/// The phrases that describe a recipe's flags, in order: what is
/// grepped, then each flag that is set.
pub open spec fn flag_phrases(f: Flags) -> Seq<Seq<char>> {
    chain_phrases(f) + delivery_phrases(f)
}

/// Append `p` as the next phrase: after `, ` unless it is the first.
fn push_phrase(out: &mut Vec<char>, Ghost(parts): Ghost<Seq<Seq<char>>>, first: bool, p: &str)
    requires
        old(out)@ == joined(parts, ", "@),
        first <==> parts.len() == 0,
    ensures
        final(out)@ == joined(parts.push(p@), ", "@),
{
    reveal(joined);
    let sep = chars_of(", ");
    let v = chars_of(p);
    assert(parts.push(p@).drop_last() =~= parts);
    if !first {
        let mut s = vstd::slice::slice_to_vec(sep.as_slice());
        out.append(&mut s);
    }
    let ghost mid = out@;
    let mut w = vstd::slice::slice_to_vec(v.as_slice());
    out.append(&mut w);
    if first {
        assert(out@ =~= p@);
    } else {
        assert(out@ =~= joined(parts, ", "@) + ", "@ + p@);
    }
}

/// Append `p` as the next phrase when `b` holds.
fn add_phrase(out: &mut Vec<char>, Ghost(parts): Ghost<Seq<Seq<char>>>, b: bool, p: &str)
    requires
        old(out)@ == joined(parts, ", "@),
        parts.len() > 0,
    ensures
        final(out)@ == joined(parts + phrase_if(b, p@), ", "@),
{
    if b {
        push_phrase(out, Ghost(parts), false, p);
        assert(parts.push(p@) =~= parts + phrase_if(b, p@));
    } else {
        assert(parts =~= parts + phrase_if(b, p@));
    }
}

/// Append the phrases for what is grepped and for the chain flags.
fn push_chain_phrases(out: &mut Vec<char>, f: &Flags)
    requires
        old(out)@.len() == 0,
    ensures
        final(out)@ == joined(chain_phrases(*f), ", "@),
{
    let ghost empty: Seq<Seq<char>> = Seq::empty();
    assert(out@ =~= joined(empty, ", "@)) by {
        reveal(joined);
    }
    match f.grep {
        MailParts::Full => push_phrase(out, Ghost(empty), true, "HB (grep header+body)"),
        MailParts::Headers => push_phrase(out, Ghost(empty), true, "H (grep header)"),
        MailParts::Body => push_phrase(out, Ghost(empty), true, "B (grep body)"),
    }
    let ghost mut parts = seq![grep_phrase(f.grep)];
    assert(empty.push(grep_phrase(f.grep)) =~= parts);
    add_phrase(out, Ghost(parts), f.case, "D (case-sensitive)");
    proof { parts = parts + phrase_if(f.case, "D (case-sensitive)"@); }
    add_phrase(out, Ghost(parts), f.chain, "A (chain on match)");
    proof { parts = parts + phrase_if(f.chain, "A (chain on match)"@); }
    add_phrase(out, Ghost(parts), f.succ, "a (chain on success)");
    proof { parts = parts + phrase_if(f.succ, "a (chain on success)"@); }
    add_phrase(out, Ghost(parts), f.else_, "E (else branch)");
    proof { parts = parts + phrase_if(f.else_, "E (else branch)"@); }
    add_phrase(out, Ghost(parts), f.err, "e (error handler)");
}

proof fn lemma_add_assoc(a: Seq<Seq<char>>, b: Seq<Seq<char>>, c: Seq<Seq<char>>)
    ensures
        (a + b) + c == a + (b + c),
{
    assert((a + b) + c =~= a + (b + c));
}

/// Append the phrases for the delivery flags after `parts`.
fn push_delivery_phrases(out: &mut Vec<char>, Ghost(parts): Ghost<Seq<Seq<char>>>, f: &Flags)
    requires
        old(out)@ == joined(parts, ", "@),
        parts.len() > 0,
    ensures
        final(out)@ == joined(parts + delivery_phrases(*f), ", "@),
{
    let ghost mut ps = parts;
    match f.pass {
        MailParts::Full => {
            assert(parts + pass_phrases(f.pass) =~= parts);
        },
        MailParts::Headers => {
            push_phrase(out, Ghost(parts), false, "h (pass header)");
            assert(parts.push("h (pass header)"@) =~= parts + pass_phrases(f.pass));
        },
        MailParts::Body => {
            push_phrase(out, Ghost(parts), false, "b (pass body)");
            assert(parts.push("b (pass body)"@) =~= parts + pass_phrases(f.pass));
        },
    }
    let ghost mut d = pass_phrases(f.pass);
    proof { ps = parts + d; }
    add_phrase(out, Ghost(ps), f.filter, "f (filter)");
    proof {
        lemma_add_assoc(parts, d, phrase_if(f.filter, "f (filter)"@));
        d = d + phrase_if(f.filter, "f (filter)"@);
        ps = ps + phrase_if(f.filter, "f (filter)"@);
    }
    add_phrase(out, Ghost(ps), f.copy, "c (copy)");
    proof {
        lemma_add_assoc(parts, d, phrase_if(f.copy, "c (copy)"@));
        d = d + phrase_if(f.copy, "c (copy)"@);
        ps = ps + phrase_if(f.copy, "c (copy)"@);
    }
    add_phrase(out, Ghost(ps), f.wait && f.quiet, "W (wait quietly)");
    proof {
        lemma_add_assoc(parts, d, phrase_if(f.wait && f.quiet, "W (wait quietly)"@));
        d = d + phrase_if(f.wait && f.quiet, "W (wait quietly)"@);
        ps = ps + phrase_if(f.wait && f.quiet, "W (wait quietly)"@);
    }
    add_phrase(out, Ghost(ps), f.wait && !f.quiet, "w (wait)");
    proof {
        lemma_add_assoc(parts, d, phrase_if(f.wait && !f.quiet, "w (wait)"@));
        d = d + phrase_if(f.wait && !f.quiet, "w (wait)"@);
        ps = ps + phrase_if(f.wait && !f.quiet, "w (wait)"@);
    }
    add_phrase(out, Ghost(ps), f.ignore, "i (ignore errors)");
    proof {
        lemma_add_assoc(parts, d, phrase_if(f.ignore, "i (ignore errors)"@));
        d = d + phrase_if(f.ignore, "i (ignore errors)"@);
        ps = ps + phrase_if(f.ignore, "i (ignore errors)"@);
    }
    add_phrase(out, Ghost(ps), f.raw, "r (raw)");
    proof {
        lemma_add_assoc(parts, d, phrase_if(f.raw, "r (raw)"@));
        d = d + phrase_if(f.raw, "r (raw)"@);
        ps = ps + phrase_if(f.raw, "r (raw)"@);
    }
    assert(ps == parts + delivery_phrases(*f));
}

/// Describe a recipe's flags: each phrase names the flag and what it
/// does, joined with `, `.
pub fn fmt_flags(f: &Flags) -> (s: String)
    ensures
        s@ == joined(flag_phrases(*f), ", "@),
{
    let mut out: Vec<char> = Vec::new();
    push_chain_phrases(&mut out, f);
    push_delivery_phrases(&mut out, Ghost(chain_phrases(*f)), f);
    string_from(out.as_slice())
}

/// The flags of a substitution: `g` when global, then `i` when blind to
/// case.
pub open spec fn subst_flags(global: bool, ci: bool) -> Seq<char> {
    (if global {
        seq!['g']
    } else {
        Seq::empty()
    }) + (if ci {
        seq!['i']
    } else {
        Seq::empty()
    })
}

/// Spell a substitution's flags.
pub fn fmt_subst_flags(global: bool, ci: bool) -> (s: &'static str)
    ensures
        s@ == subst_flags(global, ci),
{
    proof {
        reveal_strlit("gi");
        reveal_strlit("g");
        reveal_strlit("i");
        reveal_strlit("");
    }
    if global && ci {
        assert(subst_flags(global, ci) =~= "gi"@);
        "gi"
    } else if global {
        assert(subst_flags(global, ci) =~= "g"@);
        "g"
    } else if ci {
        assert(subst_flags(global, ci) =~= "i"@);
        "i"
    } else {
        assert(subst_flags(global, ci) =~= ""@);
        ""
    }
}

} // verus!
