//! Formail's header rewriting: the `-I`, `-i`, `-R`, `-u`, `-U`, `-a`,
//! `-A`, `-c` and `-z` options, applied in that order.

use vstd::prelude::*;
use vstd::utf8::encode_utf8;

use super::args::{header_arg_of, parse_header_arg};
use crate::config::strings_view;
use crate::field::{
    any_match, concat_all, flat, keep_first_pred, keep_last_pred, keep_unmatched, name_end_or,
    parts_text, prepended_old, prepending_fits, renamed_all, renaming_fits, select, zap_all,
    zapped_list, Field, FieldList, FieldModel,
};
use crate::system::{host_name, now_micros, process_id};
use crate::num::push_decimal;
use crate::text::{chars_of, string_from};

verus! {

/// The options of formail that the header rewriting, the reply and the
/// duplicate check read.
#[derive(Debug, Default)]
pub struct Args {
    /// `-t`: trust the header's sender over the envelope's.
    pub trust: bool,
    /// `-r`: generate a reply header.
    pub reply: bool,
    /// `-c`: concatenate continued fields.
    pub concatenate: bool,
    /// `-z`: zap whitespace and empty fields.
    pub zap: bool,
    /// `-a`: add a field unless one is there.
    pub add_if_not: Vec<String>,
    /// `-A`: add a field always.
    pub add_always: Vec<String>,
    /// `-i`: rename existing fields to `Old-`, then add.
    pub rename_insert: Vec<String>,
    /// `-I`: delete existing fields, then add.
    pub delete_insert: Vec<String>,
    /// `-R`: pairs of old and new field names.
    pub rename: Vec<String>,
    /// `-u`: keep the first of these fields only.
    pub first_uniq: Vec<String>,
    /// `-U`: keep the last of these fields only.
    pub last_uniq: Vec<String>,
    /// `-x`: extract the values of these fields.
    pub extract: Vec<String>,
    /// `-X`: extract these fields whole.
    pub extract_keep: Vec<String>,
}

/// The UTF-8 bytes of a text.
pub open spec fn text_bytes(s: Seq<char>) -> Seq<u8> {
    encode_utf8(s)
}

/// The field that `Field::from_parts` builds.
pub open spec fn parts_field(name: Seq<u8>, value: Seq<u8>) -> FieldModel {
    FieldModel {
        text: parts_text(name, value),
        name_len: name_end_or(parts_text(name, value), name.len() + 1),
    }
}

/// Adding a field of this name and value to `s` fits in memory.
pub open spec fn push_fits(s: Seq<FieldModel>, name: Seq<u8>, value: Seq<u8>) -> bool {
    flat(s).len() + name.len() + value.len() + 3 <= usize::MAX
}

/// The name and value bytes of a header argument.
pub open spec fn arg_name(h: Seq<char>) -> Seq<u8> {
    text_bytes(header_arg_of(h).0)
}

pub open spec fn arg_value(h: Seq<char>) -> Seq<u8> {
    text_bytes(header_arg_of(h).1)
}

/// `s` with the field `h` names added when `h` has a value.
pub open spec fn push_arg(s: Seq<FieldModel>, h: Seq<char>) -> Seq<FieldModel> {
    if arg_value(h).len() > 0 {
        s.push(parts_field(arg_name(h), arg_value(h)))
    } else {
        s
    }
}

/// `-I h`: delete the fields `h` names, then add it if it has a value.
pub open spec fn delete_insert_one(s: Seq<FieldModel>, h: Seq<char>) -> Seq<FieldModel> {
    push_arg(select(s, keep_unmatched(s, arg_name(h))), h)
}

pub open spec fn delete_insert_fits(s: Seq<FieldModel>, h: Seq<char>) -> bool {
    push_fits(select(s, keep_unmatched(s, arg_name(h))), arg_name(h), arg_value(h))
}

/// `-i h`: rename the fields `h` names to `Old-`, then add it if it has a
/// value.
pub open spec fn rename_insert_one(s: Seq<FieldModel>, h: Seq<char>) -> Seq<FieldModel> {
    push_arg(prepended_old(s, arg_name(h)), h)
}

pub open spec fn rename_insert_fits(s: Seq<FieldModel>, h: Seq<char>) -> bool {
    prepending_fits(s, arg_name(h)) && push_fits(prepended_old(s, arg_name(h)), arg_name(h), arg_value(h))
}

/// `-u h`: keep the first field `h` names.
pub open spec fn first_uniq_one(s: Seq<FieldModel>, h: Seq<char>) -> Seq<FieldModel> {
    select(s, keep_first_pred(s, text_bytes(h)))
}

/// `-U h`: keep the last field `h` names.
pub open spec fn last_uniq_one(s: Seq<FieldModel>, h: Seq<char>) -> Seq<FieldModel> {
    select(s, keep_last_pred(s, text_bytes(h)))
}

/// ASCII lower case of a character.
pub open spec fn lower_char(c: char) -> char {
    if 'A' <= c && c <= 'Z' {
        ((c as int) + 32) as char
    } else {
        c
    }
}

/// ASCII case-insensitive equality of texts (`str::eq_ignore_ascii_case`).
pub open spec fn eq_ignore_case_chars(a: Seq<char>, b: Seq<char>) -> bool {
    a.len() == b.len() && forall|i: int| 0 <= i < a.len() ==> lower_char(#[trigger] a[i]) == lower_char(b[i])
}

/// `Resent-`.
pub open spec fn resent_chars() -> Seq<char> {
    seq!['R', 'e', 's', 'e', 'n', 't', '-']
}

/// `Message-ID`.
pub open spec fn message_id_chars() -> Seq<char> {
    seq!['M', 'e', 's', 's', 'a', 'g', 'e', '-', 'I', 'D']
}

/// `Resent-Message-ID`.
pub open spec fn resent_message_id_chars() -> Seq<char> {
    resent_chars() + message_id_chars()
}

/// The value that `-a h` adds: a message id of its own for an empty
/// `Message-ID` or `Resent-Message-ID`, else the argument's value.
pub open spec fn add_value(h: Seq<char>, id: Seq<u8>) -> Seq<u8> {
    let (n, v) = header_arg_of(h);
    if (eq_ignore_case_chars(n, message_id_chars()) || eq_ignore_case_chars(n, resent_message_id_chars()))
        && text_bytes(v).len() == 0 {
        id
    } else {
        text_bytes(v)
    }
}

/// `-a h`: add the field `h` names unless one is there (`Resent-` alone
/// is no field but a flag).
pub open spec fn add_if_not_one(s: Seq<FieldModel>, h: Seq<char>, id: Seq<u8>) -> Seq<FieldModel> {
    if eq_ignore_case_chars(h, resent_chars()) || any_match(s, arg_name(h)) {
        s
    } else {
        s.push(parts_field(arg_name(h), add_value(h, id)))
    }
}

pub open spec fn add_if_not_fits(s: Seq<FieldModel>, h: Seq<char>, id: Seq<u8>) -> bool {
    push_fits(s, arg_name(h), add_value(h, id))
}

/// `-A h`: add the field `h` names.
pub open spec fn add_always_one(s: Seq<FieldModel>, h: Seq<char>) -> Seq<FieldModel> {
    s.push(parts_field(arg_name(h), arg_value(h)))
}

pub open spec fn add_always_fits(s: Seq<FieldModel>, h: Seq<char>) -> bool {
    push_fits(s, arg_name(h), arg_value(h))
}

/// `s` after one step for each argument of `hs`, in order.
pub open spec fn fold_args(
    s: Seq<FieldModel>,
    hs: Seq<Seq<char>>,
    step: spec_fn(Seq<FieldModel>, Seq<char>) -> Seq<FieldModel>,
) -> Seq<FieldModel>
    decreases hs.len(),
{
    if hs.len() == 0 {
        s
    } else {
        step(fold_args(s, hs.drop_last(), step), hs.last())
    }
}

/// Each step of `fold_args` fits.
pub open spec fn fold_fits(
    s: Seq<FieldModel>,
    hs: Seq<Seq<char>>,
    step: spec_fn(Seq<FieldModel>, Seq<char>) -> Seq<FieldModel>,
    fits: spec_fn(Seq<FieldModel>, Seq<char>) -> bool,
) -> bool
    decreases hs.len(),
{
    hs.len() == 0 || (fold_fits(s, hs.drop_last(), step, fits) && fits(
        fold_args(s, hs.drop_last(), step),
        hs.last(),
    ))
}

/// `s` with each pair of `-R` names renamed, in order.
pub open spec fn fold_renames(s: Seq<FieldModel>, hs: Seq<Seq<char>>, n: int) -> Seq<FieldModel>
    decreases n,
{
    if n <= 0 {
        s
    } else {
        let p = fold_renames(s, hs, n - 1);
        renamed_all(p, text_bytes(hs[2 * n - 2]), text_bytes(hs[2 * n - 1]))
    }
}

pub open spec fn renames_fit(s: Seq<FieldModel>, hs: Seq<Seq<char>>, n: int) -> bool
    decreases n,
{
    n <= 0 || (renames_fit(s, hs, n - 1) && renaming_fits(
        fold_renames(s, hs, n - 1),
        text_bytes(hs[2 * n - 2]),
        text_bytes(hs[2 * n - 1]),
    ))
}

/// The steps' closures.
pub open spec fn di_step() -> spec_fn(Seq<FieldModel>, Seq<char>) -> Seq<FieldModel> {
    |s: Seq<FieldModel>, h: Seq<char>| delete_insert_one(s, h)
}

pub open spec fn di_fits() -> spec_fn(Seq<FieldModel>, Seq<char>) -> bool {
    |s: Seq<FieldModel>, h: Seq<char>| delete_insert_fits(s, h)
}

pub open spec fn ri_step() -> spec_fn(Seq<FieldModel>, Seq<char>) -> Seq<FieldModel> {
    |s: Seq<FieldModel>, h: Seq<char>| rename_insert_one(s, h)
}

pub open spec fn ri_fits() -> spec_fn(Seq<FieldModel>, Seq<char>) -> bool {
    |s: Seq<FieldModel>, h: Seq<char>| rename_insert_fits(s, h)
}

pub open spec fn fu_step() -> spec_fn(Seq<FieldModel>, Seq<char>) -> Seq<FieldModel> {
    |s: Seq<FieldModel>, h: Seq<char>| first_uniq_one(s, h)
}

pub open spec fn lu_step() -> spec_fn(Seq<FieldModel>, Seq<char>) -> Seq<FieldModel> {
    |s: Seq<FieldModel>, h: Seq<char>| last_uniq_one(s, h)
}

pub open spec fn an_step(id: Seq<u8>) -> spec_fn(Seq<FieldModel>, Seq<char>) -> Seq<FieldModel> {
    |s: Seq<FieldModel>, h: Seq<char>| add_if_not_one(s, h, id)
}

pub open spec fn an_fits(id: Seq<u8>) -> spec_fn(Seq<FieldModel>, Seq<char>) -> bool {
    |s: Seq<FieldModel>, h: Seq<char>| add_if_not_fits(s, h, id)
}

pub open spec fn aa_step() -> spec_fn(Seq<FieldModel>, Seq<char>) -> Seq<FieldModel> {
    |s: Seq<FieldModel>, h: Seq<char>| add_always_one(s, h)
}

pub open spec fn aa_fits() -> spec_fn(Seq<FieldModel>, Seq<char>) -> bool {
    |s: Seq<FieldModel>, h: Seq<char>| add_always_fits(s, h)
}

/// The header after `-I` and `-i`.
pub open spec fn after_inserts(a: Args, s: Seq<FieldModel>) -> Seq<FieldModel> {
    fold_args(fold_args(s, strings_view(a.delete_insert@), di_step()), strings_view(a.rename_insert@), ri_step())
}

/// The header after `-R`, `-u` and `-U` too.
pub open spec fn after_renames(a: Args, s: Seq<FieldModel>) -> Seq<FieldModel> {
    let r = fold_renames(after_inserts(a, s), strings_view(a.rename@), (a.rename@.len() / 2) as int);
    fold_args(fold_args(r, strings_view(a.first_uniq@), fu_step()), strings_view(a.last_uniq@), lu_step())
}

/// The header after `-a` and `-A` too.
pub open spec fn after_adds(a: Args, s: Seq<FieldModel>, id: Seq<u8>) -> Seq<FieldModel> {
    fold_args(fold_args(after_renames(a, s), strings_view(a.add_if_not@), an_step(id)), strings_view(a.add_always@), aa_step())
}

/// The header after all the rewriting.
pub open spec fn rewritten(a: Args, s: Seq<FieldModel>, id: Seq<u8>) -> Seq<FieldModel> {
    let c = if a.concatenate { concat_all(after_adds(a, s, id)) } else { after_adds(a, s, id) };
    if a.zap { zapped_list(c) } else { c }
}

/// Every step of the rewriting fits in memory.
pub open spec fn rewriting_fits(a: Args, s: Seq<FieldModel>, id: Seq<u8>) -> bool {
    let s1 = fold_args(s, strings_view(a.delete_insert@), di_step());
    let r0 = after_inserts(a, s);
    let r = fold_renames(r0, strings_view(a.rename@), (a.rename@.len() / 2) as int);
    let s3 = fold_args(after_renames(a, s), strings_view(a.add_if_not@), an_step(id));
    let c = if a.concatenate { concat_all(after_adds(a, s, id)) } else { after_adds(a, s, id) };
    &&& fold_fits(s, strings_view(a.delete_insert@), di_step(), di_fits())
    &&& fold_fits(s1, strings_view(a.rename_insert@), ri_step(), ri_fits())
    &&& (a.rename@.len() % 2 == 0 ==> renames_fit(r0, strings_view(a.rename@), (a.rename@.len() / 2) as int))
    &&& fold_fits(after_renames(a, s), strings_view(a.add_if_not@), an_step(id), an_fits(id))
    &&& fold_fits(s3, strings_view(a.add_always@), aa_step(), aa_fits())
    &&& (a.zap ==> flat(zap_all(c)).len() <= usize::MAX)
}

pub proof fn lemma_parts_len(name: Seq<u8>, value: Seq<u8>)
    ensures
        parts_text(name, value).len() <= name.len() + value.len() + 3,
{
}

pub proof fn lemma_fold_step(
    s: Seq<FieldModel>,
    hs: Seq<Seq<char>>,
    step: spec_fn(Seq<FieldModel>, Seq<char>) -> Seq<FieldModel>,
    i: int,
)
    requires
        0 <= i < hs.len(),
    ensures
        fold_args(s, hs.take(i + 1), step) == step(fold_args(s, hs.take(i), step), hs[i]),
{
    assert(hs.take(i + 1).drop_last() =~= hs.take(i));
}

pub proof fn lemma_fold_fits(
    s: Seq<FieldModel>,
    hs: Seq<Seq<char>>,
    step: spec_fn(Seq<FieldModel>, Seq<char>) -> Seq<FieldModel>,
    fits: spec_fn(Seq<FieldModel>, Seq<char>) -> bool,
    i: int,
)
    requires
        fold_fits(s, hs, step, fits),
        0 <= i < hs.len(),
    ensures
        fits(fold_args(s, hs.take(i), step), hs[i]),
    decreases hs.len(),
{
    if i == hs.len() - 1 {
        assert(hs.take(i) =~= hs.drop_last());
    } else {
        lemma_fold_fits(s, hs.drop_last(), step, fits, i);
        assert(hs.drop_last().take(i) =~= hs.take(i));
    }
}

pub proof fn lemma_renames_fit(s: Seq<FieldModel>, hs: Seq<Seq<char>>, n: int, k: int)
    requires
        renames_fit(s, hs, n),
        0 < k <= n,
    ensures
        renaming_fits(fold_renames(s, hs, k - 1), text_bytes(hs[2 * k - 2]), text_bytes(hs[2 * k - 1])),
    decreases n,
{
    if k < n {
        lemma_renames_fit(s, hs, n - 1, k);
    }
}

/// Add the field built from `name` and `value`.
pub(crate) fn push_parts(fields: &mut FieldList, name: &[u8], value: &[u8])
    requires
        old(fields).wf(),
        push_fits(old(fields)@, name@, value@),
    ensures
        final(fields).wf(),
        final(fields)@ == old(fields)@.push(parts_field(name@, value@)),
{
    proof {
        lemma_parts_len(name@, value@);
    }
    let f = Field::from_parts(name, value);
    fields.push(f);
}

/// ASCII case-insensitive equality of two texts.
pub(crate) fn eq_ignore_case_exec(a: &[char], b: &[char]) -> (r: bool)
    ensures
        r == eq_ignore_case_chars(a@, b@),
{
    if a.len() != b.len() {
        return false;
    }
    let mut i: usize = 0;
    while i < a.len()
        invariant
            a@.len() == b@.len(),
            i <= a@.len(),
            forall|j: int| 0 <= j < i ==> lower_char(#[trigger] a@[j]) == lower_char(b@[j]),
        decreases a@.len() - i,
    {
        let x = a[i];
        let y = b[i];
        let lx = if 'A' <= x && x <= 'Z' { ((x as u32) + 32) as u8 as char } else { x };
        let ly = if 'A' <= y && y <= 'Z' { ((y as u32) + 32) as u8 as char } else { y };
        assert(lx == lower_char(x) && ly == lower_char(y));
        if lx != ly {
            return false;
        }
        i += 1;
    }
    true
}

/// The error of the header rewriting.
#[derive(Debug, PartialEq, Eq, Structural)]
pub enum HeaderError {
    /// `-R` was given an odd number of names.
    UnpairedRename,
}

/// Apply the header options to `fields`, in formail's order: `-I`, `-i`,
/// `-R` (pairs of names; an odd count is an error, after `-I` and `-i`
/// were applied), `-u`, `-U`, `-a` (an empty `Message-ID:` or
/// `Resent-Message-ID:` gets `message_id`), `-A`, `-c`, `-z`.
pub fn process_headers(args: &Args, fields: &mut FieldList, message_id: &str) -> (r: Result<(), HeaderError>)
    requires
        old(fields).wf(),
        rewriting_fits(*args, old(fields)@, text_bytes(message_id@)),
    ensures
        final(fields).wf(),
        args.rename@.len() % 2 == 0 ==> r is Ok && final(fields)@ == rewritten(*args, old(fields)@, text_bytes(message_id@)),
        args.rename@.len() % 2 != 0 ==> r == Err::<(), HeaderError>(HeaderError::UnpairedRename)
            && final(fields)@ == after_inserts(*args, old(fields)@),
{
    let ghost s0 = fields@;
    let ghost id = text_bytes(message_id@);
    let idb = message_id.as_bytes();
    assert(idb@ == id);
    // -I
    let ghost hs = strings_view(args.delete_insert@);
    let mut i: usize = 0;
    while i < args.delete_insert.len()
        invariant
            fields.wf(),
            hs == strings_view(args.delete_insert@),
            i <= hs.len(),
            fields@ == fold_args(s0, hs.take(i as int), di_step()),
            fold_fits(s0, hs, di_step(), di_fits()),
        decreases hs.len() - i,
    {
        proof {
            lemma_fold_step(s0, hs, di_step(), i as int);
            lemma_fold_fits(s0, hs, di_step(), di_fits(), i as int);
        }
        let (name, value) = parse_header_arg(args.delete_insert[i].as_str());
        let nb = name.as_str().as_bytes();
        let vb = value.as_str().as_bytes();
        fields.remove_all(nb);
        if vb.len() > 0 {
            push_parts(fields, nb, vb);
        }
        i += 1;
    }
    assert(hs.take(i as int) =~= hs);
    let ghost s1 = fields@;
    // -i
    let ghost hs = strings_view(args.rename_insert@);
    let mut i: usize = 0;
    while i < args.rename_insert.len()
        invariant
            fields.wf(),
            hs == strings_view(args.rename_insert@),
            i <= hs.len(),
            fields@ == fold_args(s1, hs.take(i as int), ri_step()),
            fold_fits(s1, hs, ri_step(), ri_fits()),
        decreases hs.len() - i,
    {
        proof {
            lemma_fold_step(s1, hs, ri_step(), i as int);
            lemma_fold_fits(s1, hs, ri_step(), ri_fits(), i as int);
        }
        let (name, value) = parse_header_arg(args.rename_insert[i].as_str());
        let nb = name.as_str().as_bytes();
        let vb = value.as_str().as_bytes();
        fields.prepend_old(nb);
        if vb.len() > 0 {
            push_parts(fields, nb, vb);
        }
        i += 1;
    }
    assert(hs.take(i as int) =~= hs);
    let ghost r0 = fields@;
    assert(r0 == after_inserts(*args, s0));
    // -R
    if args.rename.len() % 2 != 0 {
        return Err(HeaderError::UnpairedRename);
    }
    let ghost hs = strings_view(args.rename@);
    let rn = args.rename.len();
    let pairs = rn / 2;
    let mut j: usize = 0;
    while j < pairs
        invariant
            fields.wf(),
            hs == strings_view(args.rename@),
            pairs == hs.len() / 2,
            2 * pairs == hs.len(),
            hs.len() == args.rename@.len(),
            rn == hs.len(),
            hs.len() % 2 == 0,
            j <= pairs,
            fields@ == fold_renames(r0, hs, j as int),
            renames_fit(r0, hs, pairs as int),
        decreases pairs - j,
    {
        proof {
            lemma_renames_fit(r0, hs, pairs as int, (j + 1) as int);
        }
        let ob = args.rename[2 * j].as_str().as_bytes();
        let nb = args.rename[2 * j + 1].as_str().as_bytes();
        fields.rename_all(ob, nb);
        j += 1;
    }
    let ghost r = fields@;
    // -u
    let ghost hs = strings_view(args.first_uniq@);
    let mut i: usize = 0;
    while i < args.first_uniq.len()
        invariant
            fields.wf(),
            hs == strings_view(args.first_uniq@),
            i <= hs.len(),
            fields@ == fold_args(r, hs.take(i as int), fu_step()),
        decreases hs.len() - i,
    {
        proof {
            lemma_fold_step(r, hs, fu_step(), i as int);
        }
        fields.keep_first(args.first_uniq[i].as_str().as_bytes());
        i += 1;
    }
    assert(hs.take(i as int) =~= hs);
    let ghost r2 = fields@;
    // -U
    let ghost hs = strings_view(args.last_uniq@);
    let mut i: usize = 0;
    while i < args.last_uniq.len()
        invariant
            fields.wf(),
            hs == strings_view(args.last_uniq@),
            i <= hs.len(),
            fields@ == fold_args(r2, hs.take(i as int), lu_step()),
        decreases hs.len() - i,
    {
        proof {
            lemma_fold_step(r2, hs, lu_step(), i as int);
        }
        fields.keep_last(args.last_uniq[i].as_str().as_bytes());
        i += 1;
    }
    assert(hs.take(i as int) =~= hs);
    let ghost s2 = fields@;
    assert(s2 == after_renames(*args, s0));
    // -a
    let resent: [char; 7] = ['R', 'e', 's', 'e', 'n', 't', '-'];
    let mid: [char; 10] = ['M', 'e', 's', 's', 'a', 'g', 'e', '-', 'I', 'D'];
    let rmid: [char; 17] = ['R', 'e', 's', 'e', 'n', 't', '-', 'M', 'e', 's', 's', 'a', 'g', 'e', '-', 'I', 'D'];
    assert(resent@ =~= resent_chars());
    assert(mid@ =~= message_id_chars());
    assert(rmid@ =~= resent_message_id_chars());
    let ghost hs = strings_view(args.add_if_not@);
    let mut i: usize = 0;
    while i < args.add_if_not.len()
        invariant
            fields.wf(),
            hs == strings_view(args.add_if_not@),
            i <= hs.len(),
            fields@ == fold_args(s2, hs.take(i as int), an_step(id)),
            fold_fits(s2, hs, an_step(id), an_fits(id)),
            idb@ == id,
            resent@ == resent_chars(),
            mid@ == message_id_chars(),
            rmid@ == resent_message_id_chars(),
        decreases hs.len() - i,
    {
        proof {
            lemma_fold_step(s2, hs, an_step(id), i as int);
            lemma_fold_fits(s2, hs, an_step(id), an_fits(id), i as int);
        }
        let hv = chars_of(args.add_if_not[i].as_str());
        if !eq_ignore_case_exec(hv.as_slice(), resent.as_slice()) {
            let (name, value) = parse_header_arg(args.add_if_not[i].as_str());
            let nb = name.as_str().as_bytes();
            if fields.find(nb).is_none() {
                let nv = chars_of(name.as_str());
                if (eq_ignore_case_exec(nv.as_slice(), mid.as_slice()) || eq_ignore_case_exec(
                    nv.as_slice(),
                    rmid.as_slice(),
                )) && value.as_str().as_bytes().len() == 0 {
                    push_parts(fields, nb, idb);
                } else {
                    push_parts(fields, nb, value.as_str().as_bytes());
                }
            }
        }
        i += 1;
    }
    assert(hs.take(i as int) =~= hs);
    let ghost s3 = fields@;
    // -A
    let ghost hs = strings_view(args.add_always@);
    let mut i: usize = 0;
    while i < args.add_always.len()
        invariant
            fields.wf(),
            hs == strings_view(args.add_always@),
            i <= hs.len(),
            fields@ == fold_args(s3, hs.take(i as int), aa_step()),
            fold_fits(s3, hs, aa_step(), aa_fits()),
        decreases hs.len() - i,
    {
        proof {
            lemma_fold_step(s3, hs, aa_step(), i as int);
            lemma_fold_fits(s3, hs, aa_step(), aa_fits(), i as int);
        }
        let (name, value) = parse_header_arg(args.add_always[i].as_str());
        push_parts(fields, name.as_str().as_bytes(), value.as_str().as_bytes());
        i += 1;
    }
    assert(hs.take(i as int) =~= hs);
    if args.concatenate {
        fields.concatenate_all();
    }
    if args.zap {
        fields.zap_whitespace();
    }
    Ok(())
}

/// A message id: `<`, the time in microseconds, `.`, the process id,
/// `@`, the host name, `>`.
pub open spec fn message_id_text(t: u64, pid: u32, host: Seq<char>) -> Seq<char> {
    seq!['<'] + crate::num::decimal(t as nat) + seq!['.'] + crate::num::decimal(pid as nat) + seq!['@'] + host
        + seq!['>']
}

/// The message id of time `t` (microseconds), process `pid` and `host`:
/// `<t.pid@host>`.
pub fn message_id_of(t: u64, pid: u32, host: &str) -> (r: String)
    ensures
        r@ == message_id_text(t, pid, host@),
{
    let mut v: Vec<char> = Vec::new();
    v.push('<');
    push_decimal(&mut v, t);
    v.push('.');
    push_decimal(&mut v, pid as u64);
    v.push('@');
    let hv = chars_of(host);
    let ghost before = v@;
    let mut i: usize = 0;
    while i < hv.len()
        invariant
            i <= hv@.len(),
            v@ == before + hv@.take(i as int),
        decreases hv@.len() - i,
    {
        v.push(hv[i]);
        assert(v@ =~= before + hv@.take(i + 1));
        i += 1;
    }
    v.push('>');
    assert(hv@.take(i as int) =~= hv@);
    assert(v@ =~= message_id_text(t, pid, host@));
    string_from(v.as_slice())
}

/// A message id made of the time, this process's id and the host name
/// (its lossy text when it is no valid UTF-8, `localhost` when the
/// system gives none), laid out by
/// `message_id_of`.  The three rest on the machine; what is stated is the
/// id's form.
pub fn generate_message_id() -> (r: String)
    ensures
        exists|t: u64, pid: u32, host: Seq<char>| r@ == message_id_text(t, pid, host),
{
    let t = now_micros();
    let pid = process_id();
    let host = match host_name() {
        Some((h, _)) => h,
        None => "localhost".to_string(),
    };
    message_id_of(t, pid, host.as_str())
}

} // verus!
