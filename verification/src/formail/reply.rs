//! The header of an automatic reply (`formail -r`).

use vstd::prelude::*;

use super::args::parse_header_arg;
use super::headers::{
    arg_name, eq_ignore_case_chars, parts_field, resent_chars, text_bytes, Args,
};
use super::sender::{get_sender, sender_of, senders_readable, SenderMode};
use crate::config::strings_view;
use crate::field::{
    flat, lemma_flat_append, lemma_flat_push, model_matches, model_value, parts_text, select,
    Field, FieldList, FieldModel,
};
use crate::text::{chars_of, lossy_string, string_from, trim, trim_bounds, utf8_lossy};

verus! {

/// The fields of `s` that match `p`, in order.
pub open spec fn matched(s: Seq<FieldModel>, p: Seq<u8>) -> Seq<FieldModel> {
    select(s, match_pred(s, p))
}

/// Field `i` of `s` matches `p`.
pub open spec fn match_pred(s: Seq<FieldModel>, p: Seq<u8>) -> spec_fn(int) -> bool {
    |i: int| model_matches(s[i], p)
}

/// Index of the first field of `s` from `i` on that matches `p`.
pub open spec fn first_match_from(s: Seq<FieldModel>, p: Seq<u8>, i: int) -> Option<int>
    decreases s.len() - i,
{
    if i < 0 || i >= s.len() {
        None
    } else if model_matches(s[i], p) {
        Some(i)
    } else {
        first_match_from(s, p, i + 1)
    }
}

/// The first field of `s` that matches `p`.
pub open spec fn first_field(s: Seq<FieldModel>, p: Seq<u8>) -> Option<FieldModel> {
    match first_match_from(s, p, 0) {
        Some(k) => Some(s[k]),
        None => None,
    }
}

/// The fields of `s` that the `-i` arguments `hs` name, argument by
/// argument.
pub open spec fn kept_by_args(s: Seq<FieldModel>, hs: Seq<Seq<char>>) -> Seq<FieldModel>
    decreases hs.len(),
{
    if hs.len() == 0 {
        Seq::empty()
    } else {
        kept_by_args(s, hs.drop_last()) + matched(s, arg_name(hs.last()))
    }
}

/// `Subject`, `References`, `Message-ID`, `X-Loop`.
pub open spec fn subject_name() -> Seq<u8> {
    seq![83u8, 117u8, 98u8, 106u8, 101u8, 99u8, 116u8]
}

pub open spec fn references_name() -> Seq<u8> {
    seq![82u8, 101u8, 102u8, 101u8, 114u8, 101u8, 110u8, 99u8, 101u8, 115u8]
}

pub open spec fn message_id_name() -> Seq<u8> {
    seq![77u8, 101u8, 115u8, 115u8, 97u8, 103u8, 101u8, 45u8, 73u8, 68u8]
}

pub open spec fn x_loop_name() -> Seq<u8> {
    seq![88u8, 45u8, 76u8, 111u8, 111u8, 112u8]
}

/// The mode a reply weighs the senders in: resent fields count first when
/// the header is trusted and `-a Resent-` was given.
pub open spec fn reply_mode(a: Args) -> SenderMode {
    let resent = exists|i: int|
        0 <= i < a.add_if_not@.len() && eq_ignore_case_chars(#[trigger] a.add_if_not@[i]@, resent_chars());
    if a.trust && resent {
        SenderMode::ResentReply
    } else if a.trust {
        SenderMode::Reply
    } else {
        SenderMode::Envelope
    }
}

/// The value of a field as text, trimmed.
pub open spec fn trimmed_value(f: FieldModel) -> Seq<char> {
    trim(utf8_lossy(model_value(f)))
}

/// The references of a reply: the old `References:` and the old
/// `Message-ID:`, trimmed, a space between.
pub open spec fn reply_references(orig: Seq<FieldModel>) -> Seq<char> {
    let r1 = match first_field(orig, references_name()) {
        Some(f) => trimmed_value(f),
        None => Seq::empty(),
    };
    match first_field(orig, message_id_name()) {
        Some(f) => (if r1.len() > 0 { r1.push(' ') } else { r1 }) + trimmed_value(f),
        None => r1,
    }
}

/// The `To:` field of a reply: the sender, or `UNKNOWN`.
pub open spec fn reply_to(a: Args, orig: Seq<FieldModel>) -> Seq<FieldModel> {
    let addr = match sender_of(orig, reply_mode(a)) {
        Some(s) => s,
        None => seq!['U', 'N', 'K', 'N', 'O', 'W', 'N'],
    };
    seq![parts_field(seq![84u8, 111u8, 58u8], text_bytes(addr))]
}

/// The `Subject:` field of a reply: `Re:` and the old subject.
pub open spec fn reply_subject(orig: Seq<FieldModel>) -> Seq<FieldModel> {
    match first_field(orig, subject_name()) {
        Some(f) => seq![
            parts_field(
                seq![83u8, 117u8, 98u8, 106u8, 101u8, 99u8, 116u8, 58u8],
                text_bytes(seq!['R', 'e', ':'] + utf8_lossy(model_value(f))),
            ),
        ],
        None => Seq::empty(),
    }
}

/// The `References:` field of a reply, when there are references.
pub open spec fn reply_refs(orig: Seq<FieldModel>) -> Seq<FieldModel> {
    if reply_references(orig).len() > 0 {
        seq![
            parts_field(
                seq![82u8, 101u8, 102u8, 101u8, 114u8, 101u8, 110u8, 99u8, 101u8, 115u8, 58u8],
                text_bytes(reply_references(orig)),
            ),
        ]
    } else {
        Seq::empty()
    }
}

/// The `In-Reply-To:` field of a reply: the old message id.
pub open spec fn reply_in_reply_to(orig: Seq<FieldModel>) -> Seq<FieldModel> {
    match first_field(orig, message_id_name()) {
        Some(f) => seq![
            parts_field(
                seq![73u8, 110u8, 45u8, 82u8, 101u8, 112u8, 108u8, 121u8, 45u8, 84u8, 111u8, 58u8],
                model_value(f),
            ),
        ],
        None => Seq::empty(),
    }
}

/// The header of a reply: `To:`, `Subject:`, `References:`,
/// `In-Reply-To:`, the old `X-Loop:` fields, and the old fields that the
/// `-i` arguments name.
pub open spec fn reply_fields(a: Args, orig: Seq<FieldModel>) -> Seq<FieldModel> {
    reply_to(a, orig) + reply_subject(orig) + reply_refs(orig) + reply_in_reply_to(orig) + matched(
        orig,
        x_loop_name(),
    ) + kept_by_args(orig, strings_view(a.rename_insert@))
}

pub proof fn lemma_first_match(s: Seq<FieldModel>, p: Seq<u8>, i: int, k: int)
    requires
        0 <= i <= k < s.len(),
        model_matches(s[k], p),
        forall|j: int| 0 <= j < k ==> !model_matches(#[trigger] s[j], p),
    ensures
        first_match_from(s, p, i) == Some(k),
    decreases k - i,
{
    if i < k {
        lemma_first_match(s, p, i + 1, k);
    }
}

pub proof fn lemma_no_match(s: Seq<FieldModel>, p: Seq<u8>, i: int)
    requires
        0 <= i <= s.len(),
        forall|j: int| 0 <= j < s.len() ==> !model_matches(#[trigger] s[j], p),
    ensures
        first_match_from(s, p, i) is None,
    decreases s.len() - i,
{
    if i < s.len() {
        lemma_no_match(s, p, i + 1);
    }
}

/// The first field of `fields` that matches `p`.
pub(crate) fn first_of<'a>(fields: &'a FieldList, p: &[u8]) -> (r: Option<&'a Field>)
    requires
        fields.wf(),
    ensures
        match r {
            Some(f) => first_field(fields@, p@) == Some(f@),
            None => first_field(fields@, p@) is None,
        },
{
    let r = fields.find(p);
    match r {
        Some(f) => {
            proof {
                let k = choose|k: int|
                    0 <= k < fields@.len() && f@ == fields@[k] && model_matches(fields@[k], p@)
                        && !crate::field::any_match(fields@.take(k), p@);
                assert forall|j: int| 0 <= j < k implies !model_matches(#[trigger] fields@[j], p@) by {
                    assert(fields@.take(k)[j] == fields@[j]);
                }
                lemma_first_match(fields@, p@, 0, k);
            }
            Some(f)
        },
        None => {
            proof {
                lemma_no_match(fields@, p@, 0);
            }
            None
        },
    }
}

pub proof fn lemma_select_take(s: Seq<FieldModel>, keep: spec_fn(int) -> bool, i: int)
    requires
        0 <= i < s.len(),
    ensures
        select(s.take(i + 1), keep) == if keep(i) {
            select(s.take(i), keep).push(s[i])
        } else {
            select(s.take(i), keep)
        },
{
    assert(s.take(i + 1).drop_last() =~= s.take(i));
}

pub proof fn lemma_select_take_flat(s: Seq<FieldModel>, keep: spec_fn(int) -> bool, i: int)
    requires
        0 <= i <= s.len(),
    ensures
        flat(select(s.take(i), keep)).len() <= flat(select(s, keep)).len(),
    decreases s.len() - i,
{
    if i < s.len() {
        lemma_select_take(s, keep, i);
        lemma_select_take_flat(s, keep, i + 1);
        lemma_flat_push(select(s.take(i), keep), s[i]);
    } else {
        assert(s.take(i) =~= s);
    }
}

/// Add the field built from `name` and `value`, if the list can grow by
/// it; tells whether it did.
fn try_push_parts(l: &mut FieldList, name: &[u8], value: &[u8]) -> (ok: bool)
    requires
        old(l).wf(),
    ensures
        final(l).wf(),
        ok ==> final(l)@ == old(l)@.push(parts_field(name@, value@)),
        !ok ==> final(l)@ == old(l)@ && flat(old(l)@).len() + parts_text(name@, value@).len() + 3
            > usize::MAX,
{
    if name.len() > usize::MAX - 3 || value.len() > usize::MAX - 3 - name.len() {
        return false;
    }
    let f = Field::from_parts(name, value);
    if l.byte_len() > usize::MAX - f.len() {
        return false;
    }
    l.push(f);
    true
}

/// Add a copy of `f`, if the list can grow by it; tells whether it did.
fn try_push_copy(l: &mut FieldList, f: &Field) -> (ok: bool)
    requires
        old(l).wf(),
        f.wf(),
    ensures
        final(l).wf(),
        ok ==> final(l)@ == old(l)@.push(f@),
        !ok ==> final(l)@ == old(l)@ && flat(old(l)@).len() + f@.text.len() > usize::MAX,
{
    if l.byte_len() > usize::MAX - f.len() {
        return false;
    }
    l.push(f.duplicate());
    true
}

pub proof fn lemma_parts_text_len(name: Seq<u8>, value: Seq<u8>)
    ensures
        parts_text(name, value).len() >= name.len() + value.len(),
{
}

/// Add the fields of `orig` that match `p`; false when one did not fit.
fn push_matched(l: &mut FieldList, orig: &FieldList, p: &[u8]) -> (ok: bool)
    requires
        old(l).wf(),
        orig.wf(),
    ensures
        final(l).wf(),
        ok ==> final(l)@ == old(l)@ + matched(orig@, p@),
        !ok ==> flat(old(l)@ + matched(orig@, p@)).len() > usize::MAX,
{
    let ghost keep = match_pred(orig@, p@);
    let ghost l0 = l@;
    let n = orig.len();
    let mut k: usize = 0;
    while k < n
        invariant
            l.wf(),
            orig.wf(),
            n == orig@.len(),
            k <= n,
            keep == match_pred(orig@, p@),
            l0 == old(l)@,
            l@ == l0 + select(orig@.take(k as int), keep),
        decreases n - k,
    {
        proof {
            lemma_select_take(orig@, keep, k as int);
        }
        let f = orig.get(k);
        assert(f.wf());
        if f.name_matches(p) {
            if !try_push_copy(l, f) {
                proof {
                    lemma_select_take_flat(orig@, keep, (k + 1) as int);
                    lemma_flat_append(l0, select(orig@.take(k + 1), keep));
                    lemma_flat_append(l0, select(orig@, keep));
                    lemma_flat_push(l@, f@);
                    assert(keep(k as int));
                    assert(select(orig@.take(k + 1), keep) == select(orig@.take(k as int), keep).push(orig@[k as int]));
                    assert(l0 + select(orig@.take(k + 1), keep) =~= l@.push(f@));
                    assert(flat(l@.push(f@)).len() > usize::MAX);
                    assert(matched(orig@, p@) == select(orig@, keep));
                }
                return false;
            }
            assert(l@ =~= l0 + select(orig@.take(k + 1), keep));
        }
        k += 1;
    }
    assert(orig@.take(n as int) =~= orig@);
    true
}

/// The mode a reply weighs the senders in.
fn reply_mode_of(args: &Args) -> (m: SenderMode)
    ensures
        m == reply_mode(*args),
{
    let resent_arr: [char; 7] = ['R', 'e', 's', 'e', 'n', 't', '-'];
    assert(resent_arr@ =~= resent_chars());
    let mut resent = false;
    let mut i: usize = 0;
    while i < args.add_if_not.len()
        invariant
            i <= args.add_if_not@.len(),
            resent_arr@ == resent_chars(),
            resent == exists|j: int|
                0 <= j < i && eq_ignore_case_chars(#[trigger] args.add_if_not@[j]@, resent_chars()),
        decreases args.add_if_not@.len() - i,
    {
        let hv = chars_of(args.add_if_not[i].as_str());
        if super::headers::eq_ignore_case_exec(hv.as_slice(), resent_arr.as_slice()) {
            resent = true;
        }
        i += 1;
    }
    if args.trust && resent {
        SenderMode::ResentReply
    } else if args.trust {
        SenderMode::Reply
    } else {
        SenderMode::Envelope
    }
}

/// What a step that adds `piece` promises: done, or the list and the
/// piece together would not fit.
pub open spec fn added(before: Seq<FieldModel>, after: Seq<FieldModel>, piece: Seq<FieldModel>, ok: bool) -> bool {
    &&& ok ==> after == before + piece
    &&& !ok ==> flat(before + piece).len() + 3 > usize::MAX
}

fn push_one(l: &mut FieldList, name: &[u8], value: &[u8]) -> (ok: bool)
    requires
        old(l).wf(),
    ensures
        final(l).wf(),
        added(old(l)@, final(l)@, seq![parts_field(name@, value@)], ok),
{
    let ghost before = l@;
    let ok = try_push_parts(l, name, value);
    proof {
        lemma_flat_push(before, parts_field(name@, value@));
        assert(before.push(parts_field(name@, value@)) =~= before + seq![parts_field(name@, value@)]);
    }
    ok
}

fn push_to(l: &mut FieldList, args: &Args, orig: &FieldList) -> (ok: bool)
    requires
        old(l).wf(),
        orig.wf(),
        senders_readable(orig@),
    ensures
        final(l).wf(),
        added(old(l)@, final(l)@, reply_to(*args, orig@), ok),
{
    let mode = reply_mode_of(args);
    let addr = match get_sender(orig, mode) {
        Some(a) => a,
        None => string_from(['U', 'N', 'K', 'N', 'O', 'W', 'N'].as_slice()),
    };
    let to_name: [u8; 3] = [84u8, 111, 58];
    assert(to_name@ =~= seq![84u8, 111u8, 58u8]);
    push_one(l, to_name.as_slice(), addr.as_str().as_bytes())
}

fn push_subject(l: &mut FieldList, orig: &FieldList) -> (ok: bool)
    requires
        old(l).wf(),
        orig.wf(),
    ensures
        final(l).wf(),
        added(old(l)@, final(l)@, reply_subject(orig@), ok),
{
    let subj_pat: [u8; 7] = [83u8, 117, 98, 106, 101, 99, 116];
    assert(subj_pat@ =~= subject_name());
    match first_of(orig, subj_pat.as_slice()) {
        Some(f) => {
            let lv = lossy_string(f.value());
            let mut v: Vec<char> = Vec::new();
            v.push('R');
            v.push('e');
            v.push(':');
            let mut lc = chars_of(lv.as_str());
            v.append(&mut lc);
            let subj = string_from(v.as_slice());
            assert(subj@ =~= seq!['R', 'e', ':'] + utf8_lossy(model_value(f@)));
            let sname: [u8; 8] = [83u8, 117, 98, 106, 101, 99, 116, 58];
            assert(sname@ =~= seq![83u8, 117u8, 98u8, 106u8, 101u8, 99u8, 116u8, 58u8]);
            push_one(l, sname.as_slice(), subj.as_str().as_bytes())
        },
        None => {
            assert(l@ + reply_subject(orig@) =~= l@);
            true
        },
    }
}

/// The trimmed text of a field's value.
fn trimmed_chars(f: &Field) -> (r: Vec<char>)
    ensures
        r@ == trimmed_value(f@),
{
    let lv = lossy_string(f.value());
    let c = chars_of(lv.as_str());
    let (a, b) = trim_bounds(c.as_slice());
    vstd::slice::slice_to_vec(vstd::slice::slice_subrange(c.as_slice(), a, b))
}

fn push_refs(l: &mut FieldList, orig: &FieldList) -> (ok: bool)
    requires
        old(l).wf(),
        orig.wf(),
    ensures
        final(l).wf(),
        added(old(l)@, final(l)@, reply_refs(orig@), ok),
{
    let ref_pat: [u8; 10] = [82u8, 101, 102, 101, 114, 101, 110, 99, 101, 115];
    assert(ref_pat@ =~= references_name());
    let mid_pat: [u8; 10] = [77u8, 101, 115, 115, 97, 103, 101, 45, 73, 68];
    assert(mid_pat@ =~= message_id_name());
    let mut refs: Vec<char> = Vec::new();
    match first_of(orig, ref_pat.as_slice()) {
        Some(f) => {
            let mut t = trimmed_chars(f);
            refs.append(&mut t);
        },
        None => {},
    }
    match first_of(orig, mid_pat.as_slice()) {
        Some(f) => {
            if refs.len() > 0 {
                refs.push(' ');
            }
            let mut t = trimmed_chars(f);
            refs.append(&mut t);
        },
        None => {},
    }
    assert(refs@ =~= reply_references(orig@));
    if refs.len() > 0 {
        let rs = string_from(refs.as_slice());
        let rname: [u8; 11] = [82u8, 101, 102, 101, 114, 101, 110, 99, 101, 115, 58];
        assert(rname@ =~= seq![82u8, 101u8, 102u8, 101u8, 114u8, 101u8, 110u8, 99u8, 101u8, 115u8, 58u8]);
        push_one(l, rname.as_slice(), rs.as_str().as_bytes())
    } else {
        assert(l@ + reply_refs(orig@) =~= l@);
        true
    }
}

fn push_in_reply_to(l: &mut FieldList, orig: &FieldList) -> (ok: bool)
    requires
        old(l).wf(),
        orig.wf(),
    ensures
        final(l).wf(),
        added(old(l)@, final(l)@, reply_in_reply_to(orig@), ok),
{
    let mid_pat: [u8; 10] = [77u8, 101, 115, 115, 97, 103, 101, 45, 73, 68];
    assert(mid_pat@ =~= message_id_name());
    match first_of(orig, mid_pat.as_slice()) {
        Some(f) => {
            let iname: [u8; 12] = [73u8, 110, 45, 82, 101, 112, 108, 121, 45, 84, 111, 58];
            assert(iname@ =~= seq![73u8, 110u8, 45u8, 82u8, 101u8, 112u8, 108u8, 121u8, 45u8, 84u8, 111u8, 58u8]);
            push_one(l, iname.as_slice(), f.value())
        },
        None => {
            assert(l@ + reply_in_reply_to(orig@) =~= l@);
            true
        },
    }
}

fn push_kept(l: &mut FieldList, args: &Args, orig: &FieldList) -> (ok: bool)
    requires
        old(l).wf(),
        orig.wf(),
    ensures
        final(l).wf(),
        ok ==> final(l)@ == old(l)@ + kept_by_args(orig@, strings_view(args.rename_insert@)),
        !ok ==> flat(old(l)@ + kept_by_args(orig@, strings_view(args.rename_insert@))).len() > usize::MAX,
{
    let ghost hs = strings_view(args.rename_insert@);
    let ghost base = l@;
    let mut i: usize = 0;
    while i < args.rename_insert.len()
        invariant
            l.wf(),
            orig.wf(),
            hs == strings_view(args.rename_insert@),
            i <= hs.len(),
            base == old(l)@,
            l@ == base + kept_by_args(orig@, hs.take(i as int)),
        decreases hs.len() - i,
    {
        let (name, _value) = parse_header_arg(args.rename_insert[i].as_str());
        let nb = name.as_str().as_bytes();
        assert(hs.take(i + 1).drop_last() =~= hs.take(i as int));
        let ghost before = l@;
        if !push_matched(l, orig, nb) {
            proof {
                lemma_kept_prefix(orig@, hs, i + 1);
                lemma_flat_append(base, kept_by_args(orig@, hs.take(i + 1)));
                lemma_flat_append(base, kept_by_args(orig@, hs));
                assert(before + matched(orig@, nb@) =~= base + kept_by_args(orig@, hs.take(i + 1)));
            }
            return false;
        }
        assert(l@ =~= base + kept_by_args(orig@, hs.take(i + 1)));
        i += 1;
    }
    assert(hs.take(i as int) =~= hs);
    true
}

/// Generate auto-reply headers from original message: `To:` the sender
/// (weighed for a reply when `-t`, resent fields first with `-a
/// Resent-`), `Subject: Re:` the old subject, `References:`,
/// `In-Reply-To:`, the old `X-Loop:` fields and the fields that `-i`
/// names.  `None` when the reply would not fit in memory.
pub fn generate_reply(args: &Args, orig: &FieldList) -> (r: Option<FieldList>)
    requires
        orig.wf(),
        senders_readable(orig@),
    ensures
        match r {
            Some(l) => l.wf() && l@ == reply_fields(*args, orig@),
            None => flat(reply_fields(*args, orig@)).len() + 3 > usize::MAX,
        },
{
    let ghost p1 = reply_to(*args, orig@);
    let ghost p2 = reply_subject(orig@);
    let ghost p3 = reply_refs(orig@);
    let ghost p4 = reply_in_reply_to(orig@);
    let ghost p5 = matched(orig@, x_loop_name());
    let ghost p6 = kept_by_args(orig@, strings_view(args.rename_insert@));
    proof {
        lemma_flat_append(p1 + p2 + p3 + p4 + p5, p6);
        lemma_flat_append(p1 + p2 + p3 + p4, p5);
        lemma_flat_append(p1 + p2 + p3, p4);
        lemma_flat_append(p1 + p2, p3);
        lemma_flat_append(p1, p2);
        assert(Seq::<FieldModel>::empty() + p1 =~= p1);
    }
    let mut reply = FieldList::new();
    if !push_to(&mut reply, args, orig) {
        return None;
    }
    if !push_subject(&mut reply, orig) {
        return None;
    }
    if !push_refs(&mut reply, orig) {
        return None;
    }
    if !push_in_reply_to(&mut reply, orig) {
        return None;
    }
    let xl: [u8; 6] = [88u8, 45, 76, 111, 111, 112];
    assert(xl@ =~= x_loop_name());
    if !push_matched(&mut reply, orig, xl.as_slice()) {
        return None;
    }
    if !push_kept(&mut reply, args, orig) {
        return None;
    }
    Some(reply)
}

pub proof fn lemma_kept_prefix(s: Seq<FieldModel>, hs: Seq<Seq<char>>, i: int)
    requires
        0 <= i <= hs.len(),
    ensures
        flat(kept_by_args(s, hs.take(i))).len() <= flat(kept_by_args(s, hs)).len(),
    decreases hs.len() - i,
{
    if i < hs.len() {
        lemma_kept_prefix(s, hs, i + 1);
        assert(hs.take(i + 1).drop_last() =~= hs.take(i));
        lemma_flat_append(kept_by_args(s, hs.take(i)), matched(s, arg_name(hs[i])));
    } else {
        assert(hs.take(i) =~= hs);
    }
}

} // verus!
