//! Lists of header fields, and parsing of a header block.

use vstd::prelude::*;
use vstd::slice::slice_subrange;

use super::{
    find_field_name_end, model_concatenated, model_is_empty_value, model_is_from_line,
    model_matches, model_name, model_renamable, model_renamed, model_wf, model_zapped, spec_name_end,
    starts_with, starts_with_from, Field, FieldModel, COLON, NL, SP, TAB, from_prefix,
};

verus! {

/// The models of a sequence of fields.
pub open spec fn views(v: Seq<Field>) -> Seq<FieldModel> {
    v.map_values(|f: Field| f@)
}

/// The bytes of a list of fields, written one after another.
pub open spec fn flat(s: Seq<FieldModel>) -> Seq<u8>
    decreases s.len(),
{
    if s.len() == 0 {
        Seq::empty()
    } else {
        flat(s.drop_last()) + s.last().text
    }
}

/// Every field of the list is well formed.
pub open spec fn all_wf(s: Seq<FieldModel>) -> bool {
    forall|i: int| 0 <= i < s.len() ==> model_wf(#[trigger] s[i])
}

/// The fields of `s` whose indices satisfy `keep`, in order.
pub open spec fn select(s: Seq<FieldModel>, keep: spec_fn(int) -> bool) -> Seq<FieldModel>
    decreases s.len(),
{
    if s.len() == 0 {
        Seq::empty()
    } else {
        let prev = select(s.drop_last(), keep);
        if keep(s.len() - 1) {
            prev.push(s.last())
        } else {
            prev
        }
    }
}

/// Some field of `s` matches `pattern`.
pub open spec fn any_match(s: Seq<FieldModel>, pattern: Seq<u8>) -> bool {
    exists|j: int| 0 <= j < s.len() && model_matches(#[trigger] s[j], pattern)
}

/// `remove_all`: keep the fields that do not match.
pub open spec fn keep_unmatched(s: Seq<FieldModel>, pattern: Seq<u8>) -> spec_fn(int) -> bool {
    |i: int| !model_matches(s[i], pattern)
}

/// `keep_first`: keep the fields that do not match, and the first that does.
pub open spec fn keep_first_pred(s: Seq<FieldModel>, pattern: Seq<u8>) -> spec_fn(int) -> bool {
    |i: int| !model_matches(s[i], pattern) || !any_match(s.take(i), pattern)
}

/// `keep_last`: keep the fields that do not match, and the last that does.
pub open spec fn keep_last_pred(s: Seq<FieldModel>, pattern: Seq<u8>) -> spec_fn(int) -> bool {
    |i: int| !model_matches(s[i], pattern) || !any_match(s.skip(i + 1), pattern)
}

/// `zap_whitespace`: keep the fields that have a value.
pub open spec fn keep_valued(s: Seq<FieldModel>) -> spec_fn(int) -> bool {
    |i: int| !model_is_empty_value(s[i])
}

/// Each field matching `pattern` renamed to `new_name`.
pub open spec fn renamed_all(s: Seq<FieldModel>, pattern: Seq<u8>, new_name: Seq<u8>) -> Seq<FieldModel> {
    s.map_values(
        |f: FieldModel|
            if model_matches(f, pattern) {
                model_renamed(f, new_name)
            } else {
                f
            },
    )
}

/// The `Old-` name given to a field by `prepend_old`.
pub open spec fn old_name(f: FieldModel) -> Seq<u8> {
    seq![79u8, 108u8, 100u8, 45u8] + model_name(f) + seq![COLON]
}

/// Each field matching `pattern` renamed to `Old-` and its name.
pub open spec fn prepended_old(s: Seq<FieldModel>, pattern: Seq<u8>) -> Seq<FieldModel> {
    s.map_values(
        |f: FieldModel|
            if model_matches(f, pattern) {
                model_renamed(f, old_name(f))
            } else {
                f
            },
    )
}

/// The text of a field with every newline but the final byte turned into
/// a space (envelope lines are left alone).
pub open spec fn unfolded_text(f: FieldModel) -> Seq<u8> {
    if model_is_from_line(f) {
        f.text
    } else {
        Seq::new(
            f.text.len(),
            |i: int|
                if i + 1 < f.text.len() && f.text[i] == NL {
                    SP
                } else {
                    f.text[i]
                },
        )
    }
}

/// The unfolded texts of a list of fields, one after another.
pub open spec fn flat_unfolded(s: Seq<FieldModel>) -> Seq<u8>
    decreases s.len(),
{
    if s.len() == 0 {
        Seq::empty()
    } else {
        flat_unfolded(s.drop_last()) + unfolded_text(s.last())
    }
}

/// Every field with its continuation lines joined.
pub open spec fn concat_all(s: Seq<FieldModel>) -> Seq<FieldModel> {
    s.map_values(|f: FieldModel| model_concatenated(f))
}

/// Every field with a space ensured after its colon.
pub open spec fn zap_all(s: Seq<FieldModel>) -> Seq<FieldModel> {
    s.map_values(|f: FieldModel| model_zapped(f))
}

/// The fields of `s` that `zap_whitespace` leaves: each zapped, and those
/// without a value dropped.
pub open spec fn zapped_list(s: Seq<FieldModel>) -> Seq<FieldModel> {
    select(zap_all(s), keep_valued(zap_all(s)))
}

/// Renaming every field of `s` that matches `pattern` to `new_name`
/// keeps each name within its text and fits in memory.
pub open spec fn renaming_fits(s: Seq<FieldModel>, pattern: Seq<u8>, new_name: Seq<u8>) -> bool {
    &&& forall|i: int|
        0 <= i < s.len() && model_matches(#[trigger] s[i], pattern) ==> model_renamable(s[i], new_name)
            && new_name.len() + s[i].text.len() + 2 <= usize::MAX
    &&& flat(renamed_all(s, pattern, new_name)).len() <= usize::MAX
}

/// Prefixing `Old-` to every field of `s` that matches `pattern` keeps
/// each name within its text and fits in memory.
pub open spec fn prepending_fits(s: Seq<FieldModel>, pattern: Seq<u8>) -> bool {
    &&& forall|i: int|
        0 <= i < s.len() && model_matches(#[trigger] s[i], pattern) ==> model_renamable(s[i], old_name(s[i]))
            && 2 * s[i].text.len() + 7 <= usize::MAX
    &&& flat(prepended_old(s, pattern)).len() <= usize::MAX
}

/// Index just past the newline that ends the line starting at `i` (or
/// the length, when no newline follows).
pub open spec fn line_end(h: Seq<u8>, i: nat) -> nat
    decreases h.len() - i,
{
    if i >= h.len() {
        h.len()
    } else if h[i as int] == NL {
        i + 1
    } else {
        line_end(h, i + 1)
    }
}

/// A position that starts a line: the end, or just past a newline.
pub open spec fn at_line_start(h: Seq<u8>, x: nat) -> bool {
    x == h.len() || (0 < x <= h.len() && h[x - 1] == NL)
}

pub proof fn lemma_line_end(h: Seq<u8>, i: nat)
    requires
        i < h.len(),
    ensures
        i < line_end(h, i) <= h.len(),
        at_line_start(h, line_end(h, i)),
    decreases h.len() - i,
{
    if h[i as int] != NL {
        if i + 1 < h.len() {
            lemma_line_end(h, i + 1);
        } else {
            assert(line_end(h, i + 1) == h.len());
        }
    }
}

/// End of the continuation lines (those starting with a blank) that
/// follow position `e`.
pub open spec fn cont_end(h: Seq<u8>, e: nat) -> nat
    decreases h.len() - e,
{
    if e < h.len() && (h[e as int] == SP || h[e as int] == TAB) {
        proof {
            lemma_line_end(h, e);
        }
        cont_end(h, line_end(h, e))
    } else {
        e
    }
}

pub proof fn lemma_cont_end(h: Seq<u8>, e: nat)
    requires
        e <= h.len(),
        at_line_start(h, e),
    ensures
        e <= cont_end(h, e) <= h.len(),
        at_line_start(h, cont_end(h, e)),
    decreases h.len() - e,
{
    if e < h.len() && (h[e as int] == SP || h[e as int] == TAB) {
        lemma_line_end(h, e);
        lemma_cont_end(h, line_end(h, e));
    }
}

/// A field's text always ends with a newline.
pub open spec fn field_text(t: Seq<u8>) -> Seq<u8> {
    if t.len() > 0 && t.last() == NL {
        t
    } else {
        t.push(NL)
    }
}

/// Fields of header `h` from position `i` on, after those in `acc`: each
/// line that is a header field starts a field that runs over its
/// continuation lines; other lines, and envelope lines after the first
/// field, are skipped.
pub open spec fn parse_from(h: Seq<u8>, i: nat, acc: Seq<FieldModel>) -> Seq<FieldModel>
    decreases h.len() - i,
{
    if i >= h.len() {
        acc
    } else {
        proof {
            lemma_line_end(h, i);
        }
        let le = line_end(h, i);
        let line = h.subrange(i as int, le as int);
        match spec_name_end(line) {
            None => parse_from(h, le, acc),
            Some(nl) => {
                if starts_with(line, from_prefix()) && acc.len() > 0 {
                    parse_from(h, le, acc)
                } else {
                    proof {
                        lemma_cont_end(h, le);
                    }
                    let end = cont_end(h, le);
                    parse_from(
                        h,
                        end,
                        acc.push(FieldModel { text: field_text(h.subrange(i as int, end as int)), name_len: nl }),
                    )
                }
            },
        }
    }
}

/// The fields of a header block.
pub open spec fn parsed_fields(h: Seq<u8>) -> Seq<FieldModel> {
    parse_from(h, 0, Seq::empty())
}

/// Start of the first empty line of `h` at or after `s` (or the length).
pub open spec fn blank_line_from(h: Seq<u8>, s: nat) -> nat
    decreases h.len() - s,
{
    if s >= h.len() {
        h.len()
    } else if h[s as int] == NL && (s == 0 || h[s - 1] == NL) {
        s
    } else {
        blank_line_from(h, s + 1)
    }
}

/// The header of a message: everything before its first empty line.
pub open spec fn header_part(m: Seq<u8>) -> Seq<u8> {
    m.take(blank_line_from(m, 0) as int)
}

/// The body of a message: everything after its first empty line.
pub open spec fn body_part(m: Seq<u8>) -> Seq<u8> {
    let p = blank_line_from(m, 0);
    if p < m.len() {
        m.skip(p + 1 as int)
    } else {
        Seq::empty()
    }
}

pub proof fn lemma_flat_append(a: Seq<FieldModel>, b: Seq<FieldModel>)
    ensures
        flat(a + b) == flat(a) + flat(b),
    decreases b.len(),
{
    if b.len() == 0 {
        assert(a + b =~= a);
        assert(flat(a) + flat(b) =~= flat(a));
    } else {
        lemma_flat_append(a, b.drop_last());
        assert((a + b).drop_last() =~= a + b.drop_last());
        assert(flat(a) + flat(b) =~= flat(a) + flat(b.drop_last()) + b.last().text);
    }
}

pub proof fn lemma_flat_push(s: Seq<FieldModel>, f: FieldModel)
    ensures
        flat(s.push(f)) == flat(s) + f.text,
{
    assert(s.push(f).drop_last() =~= s);
}

pub proof fn lemma_flat_take_le(s: Seq<FieldModel>, i: int)
    requires
        0 <= i <= s.len(),
    ensures
        flat(s.take(i)).len() <= flat(s).len(),
    decreases s.len() - i,
{
    if i < s.len() {
        lemma_flat_take_le(s, i + 1);
        assert(s.take(i + 1).drop_last() =~= s.take(i));
    } else {
        assert(s.take(i) =~= s);
    }
}

pub proof fn lemma_flat_insert(s: Seq<FieldModel>, i: int, f: FieldModel)
    requires
        0 <= i <= s.len(),
    ensures
        flat(s.insert(i, f)).len() == flat(s).len() + f.text.len(),
{
    assert(s.insert(i, f) =~= s.take(i).push(f) + s.skip(i));
    assert(s =~= s.take(i) + s.skip(i));
    lemma_flat_append(s.take(i).push(f), s.skip(i));
    lemma_flat_append(s.take(i), s.skip(i));
    lemma_flat_push(s.take(i), f);
}

pub proof fn lemma_flat_remove(s: Seq<FieldModel>, i: int)
    requires
        0 <= i < s.len(),
    ensures
        flat(s.remove(i)).len() + s[i].text.len() == flat(s).len(),
{
    assert(s.remove(i) =~= s.take(i) + s.skip(i + 1));
    assert(s =~= s.take(i).push(s[i]) + s.skip(i + 1));
    lemma_flat_append(s.take(i), s.skip(i + 1));
    lemma_flat_append(s.take(i).push(s[i]), s.skip(i + 1));
    lemma_flat_push(s.take(i), s[i]);
}

pub proof fn lemma_flat_update(s: Seq<FieldModel>, i: int, f: FieldModel)
    requires
        0 <= i < s.len(),
    ensures
        flat(s.update(i, f)).len() + s[i].text.len() == flat(s).len() + f.text.len(),
{
    lemma_flat_remove(s, i);
    lemma_flat_remove(s.update(i, f), i);
    assert(s.update(i, f).remove(i) =~= s.remove(i));
}

/// Concatenating continuation lines keeps every length.
pub proof fn lemma_flat_concatenated_len(s: Seq<FieldModel>)
    ensures
        flat(s.map_values(|f: FieldModel| model_concatenated(f))).len() == flat(s).len(),
    decreases s.len(),
{
    let m = s.map_values(|f: FieldModel| model_concatenated(f));
    if s.len() > 0 {
        lemma_flat_concatenated_len(s.drop_last());
        assert(m.drop_last() =~= s.drop_last().map_values(|f: FieldModel| model_concatenated(f)));
    }
}

/// Selecting from well-formed fields gives well-formed fields.
pub proof fn lemma_select_wf(s: Seq<FieldModel>, keep: spec_fn(int) -> bool)
    requires
        all_wf(s),
    ensures
        all_wf(select(s, keep)),
    decreases s.len(),
{
    if s.len() > 0 {
        assert(all_wf(s.drop_last())) by {
            assert forall|i: int| 0 <= i < s.drop_last().len() implies model_wf(#[trigger] s.drop_last()[i]) by {
                assert(s.drop_last()[i] == s[i]);
            }
        }
        lemma_select_wf(s.drop_last(), keep);
        assert(model_wf(s[s.len() - 1]));
    }
}

/// A list of header fields.
#[derive(Debug, Clone)]
pub struct FieldList {
    fields: Vec<Field>,
    byte_len: usize,
}

impl View for FieldList {
    type V = Seq<FieldModel>;

    closed spec fn view(&self) -> Seq<FieldModel> {
        views(self.fields@)
    }
}

impl FieldList {
    /// The byte count that the list keeps.
    pub closed spec fn spec_byte_len(&self) -> nat {
        self.byte_len as nat
    }

    /// The kept byte count is the length of the written list, and every
    /// field is well formed.
    pub open spec fn wf(&self) -> bool {
        &&& all_wf(self@)
        &&& self.spec_byte_len() == flat(self@).len()
    }

    proof fn lemma_fields(&self)
        ensures
            self@.len() == self.fields@.len(),
            forall|i: int| 0 <= i < self@.len() ==> #[trigger] self@[i] == self.fields@[i]@,
    {
    }

    /// Create an empty field list.
    pub fn new() -> (r: FieldList)
        ensures
            r@ == Seq::<FieldModel>::empty(),
            r.wf(),
    {
        let r = FieldList { fields: Vec::new(), byte_len: 0 };
        assert(r@ =~= Seq::<FieldModel>::empty());
        r
    }

    /// Total byte length of all fields.
    pub fn byte_len(&self) -> (r: usize)
        requires
            self.wf(),
        ensures
            r == flat(self@).len(),
    {
        self.byte_len
    }

    /// Number of fields.
    pub fn len(&self) -> (r: usize)
        ensures
            r == self@.len(),
    {
        self.fields.len()
    }

    /// Whether the list holds no field.
    pub fn is_empty(&self) -> (b: bool)
        ensures
            b == (self@.len() == 0),
    {
        self.fields.len() == 0
    }

    /// The field at `idx`.
    pub fn get(&self, idx: usize) -> (r: &Field)
        requires
            idx < self@.len(),
        ensures
            r@ == self@[idx as int],
    {
        &self.fields[idx]
    }

    /// The fields, in order.
    pub fn as_slice(&self) -> (r: &[Field])
        ensures
            views(r@) == self@,
    {
        self.fields.as_slice()
    }

    /// Append a field.
    pub fn push(&mut self, f: Field)
        requires
            old(self).wf(),
            f.wf(),
            flat(old(self)@).len() + f@.text.len() <= usize::MAX,
        ensures
            final(self)@ == old(self)@.push(f@),
            final(self).wf(),
    {
        proof {
            lemma_flat_push(self@, f@);
        }
        self.byte_len = self.byte_len + f.len();
        self.fields.push(f);
        assert(self@ =~= old(self)@.push(f@));
    }

    /// Insert a field at the given index.
    pub fn insert(&mut self, idx: usize, f: Field)
        requires
            old(self).wf(),
            f.wf(),
            idx <= old(self)@.len(),
            flat(old(self)@).len() + f@.text.len() <= usize::MAX,
        ensures
            final(self)@ == old(self)@.insert(idx as int, f@),
            final(self).wf(),
    {
        proof {
            lemma_flat_insert(self@, idx as int, f@);
        }
        self.byte_len = self.byte_len + f.len();
        self.fields.insert(idx, f);
        assert(self@ =~= old(self)@.insert(idx as int, f@));
    }

    /// Remove the field at the given index.
    pub fn remove(&mut self, idx: usize)
        requires
            old(self).wf(),
            idx < old(self)@.len(),
        ensures
            final(self)@ == old(self)@.remove(idx as int),
            final(self).wf(),
    {
        proof {
            lemma_flat_remove(self@, idx as int);
        }
        self.byte_len = self.byte_len - self.fields[idx].len();
        self.fields.remove(idx);
        assert(self@ =~= old(self)@.remove(idx as int));
    }

    /// Replace the first field, maintaining byte_len.
    pub fn replace_first(&mut self, f: Field)
        requires
            old(self).wf(),
            f.wf(),
            old(self)@.len() > 0,
            flat(old(self)@).len() + f@.text.len() <= usize::MAX,
        ensures
            final(self)@ == old(self)@.update(0, f@),
            final(self).wf(),
    {
        proof {
            lemma_flat_update(self@, 0, f@);
            lemma_flat_remove(self@, 0);
        }
        self.byte_len = self.byte_len - self.fields[0].len();
        self.byte_len = self.byte_len + f.len();
        self.fields.set(0, f);
        assert(self@ =~= old(self)@.update(0, f@));
    }

    /// Find first field matching the pattern (case-insensitive prefix).
    pub fn find(&self, pattern: &[u8]) -> (r: Option<&Field>)
        requires
            self.wf(),
        ensures
            r is None <==> !any_match(self@, pattern@),
            r matches Some(f) ==> exists|k: int|
                0 <= k < self@.len() && f@ == self@[k] && model_matches(self@[k], pattern@)
                    && !any_match(self@.take(k), pattern@),
    {
        let mut i: usize = 0;
        while i < self.fields.len()
            invariant
                self.wf(),
                i <= self@.len(),
                !any_match(self@.take(i as int), pattern@),
            decreases self@.len() - i,
        {
            proof {
                self.lemma_fields();
                assert(model_wf(self@[i as int]));
            }
            if self.fields[i].name_matches(pattern) {
                assert(model_matches(self@[i as int], pattern@));
                return Some(&self.fields[i]);
            }
            assert(!any_match(self@.take(i + 1), pattern@)) by {
                assert forall|j: int| 0 <= j < i + 1 implies !model_matches(
                    #[trigger] self@.take(i + 1)[j],
                    pattern@,
                ) by {
                    if j < i {
                        assert(self@.take(i + 1)[j] == self@.take(i as int)[j]);
                    }
                }
            }
            i += 1;
        }
        assert(self@.take(i as int) =~= self@);
        None
    }

    /// Keep the fields whose flag is set; `keep` states the flags.
    fn retain_flags(&mut self, flags: &Vec<bool>, Ghost(keep): Ghost<spec_fn(int) -> bool>)
        requires
            old(self).wf(),
            flags@.len() == old(self)@.len(),
            forall|i: int| 0 <= i < flags@.len() ==> flags@[i] == keep(i),
        ensures
            final(self)@ == select(old(self)@, keep),
            final(self).wf(),
    {
        let ghost orig = self@;
        proof {
            self.lemma_fields();
        }
        let n0 = self.fields.len();
        assert(orig.len() == n0);
        let mut rest: Vec<Field> = Vec::new();
        std::mem::swap(&mut rest, &mut self.fields);
        let mut kept: Vec<Field> = Vec::new();
        let mut total: usize = 0;
        let mut i: usize = 0;
        assert(views(rest@) =~= orig.skip(0));
        assert(views(kept@) =~= select(orig.take(0), keep));
        while rest.len() > 0
            invariant
                i <= orig.len(),
                orig.len() <= usize::MAX,
                flags@.len() == orig.len(),
                forall|j: int| 0 <= j < flags@.len() ==> flags@[j] == keep(j),
                rest@.len() + i == orig.len(),
                views(rest@) == orig.skip(i as int),
                views(kept@) == select(orig.take(i as int), keep),
                total == flat(select(orig.take(i as int), keep)).len(),
                total <= flat(orig.take(i as int)).len(),
                flat(orig).len() <= usize::MAX,
                all_wf(orig),
            decreases rest@.len(),
        {
            let ghost before = rest@;
            let f = rest.remove(0);
            proof {
                assert(f@ == orig.skip(i as int)[0]);
                assert(orig.take(i + 1).drop_last() =~= orig.take(i as int));
                assert(orig.take(i + 1).last() == orig[i as int]);
                lemma_flat_push(orig.take(i as int), orig[i as int]);
                lemma_flat_take_le(orig, i + 1);
                assert forall|k: int| 0 <= k < rest@.len() implies #[trigger] views(rest@)[k] == orig.skip(i + 1)[k] by {
                    assert(rest@[k] == before[k + 1]);
                    assert(views(before)[k + 1] == orig.skip(i as int)[k + 1]);
                }
                assert(views(rest@) =~= orig.skip(i + 1));
            }
            if flags[i] {
                proof {
                    lemma_flat_push(select(orig.take(i as int), keep), f@);
                }
                total = total + f.len();
                kept.push(f);
                assert(views(kept@) =~= select(orig.take(i as int), keep).push(orig[i as int]));
            }
            i += 1;
        }
        assert(orig.take(i as int) =~= orig);
        proof {
            lemma_select_wf(orig, keep);
        }
        self.fields = kept;
        self.byte_len = total;
    }

    /// Remove all fields matching the pattern.
    pub fn remove_all(&mut self, pattern: &[u8])
        requires
            old(self).wf(),
        ensures
            final(self)@ == select(old(self)@, keep_unmatched(old(self)@, pattern@)),
            final(self).wf(),
    {
        let ghost orig = self@;
        let mut flags: Vec<bool> = Vec::new();
        let mut i: usize = 0;
        while i < self.fields.len()
            invariant
                self@ == orig,
                self.wf(),
                i <= self@.len(),
                flags@.len() == i,
                forall|j: int| 0 <= j < i ==> flags@[j] == keep_unmatched(orig, pattern@)(j),
            decreases self@.len() - i,
        {
            proof {
                self.lemma_fields();
                assert(model_wf(self@[i as int]));
            }
            let m = self.fields[i].name_matches(pattern);
            flags.push(!m);
            i += 1;
        }
        self.retain_flags(&flags, Ghost(keep_unmatched(orig, pattern@)));
    }

    /// Keep only the first occurrence of fields matching pattern.
    pub fn keep_first(&mut self, pattern: &[u8])
        requires
            old(self).wf(),
        ensures
            final(self)@ == select(old(self)@, keep_first_pred(old(self)@, pattern@)),
            final(self).wf(),
    {
        let ghost orig = self@;
        let mut flags: Vec<bool> = Vec::new();
        let mut seen = false;
        let mut i: usize = 0;
        while i < self.fields.len()
            invariant
                self@ == orig,
                self.wf(),
                i <= self@.len(),
                flags@.len() == i,
                seen == any_match(orig.take(i as int), pattern@),
                forall|j: int| 0 <= j < i ==> flags@[j] == keep_first_pred(orig, pattern@)(j),
            decreases self@.len() - i,
        {
            proof {
                self.lemma_fields();
                assert(model_wf(self@[i as int]));
            }
            let m = self.fields[i].name_matches(pattern);
            flags.push(!m || !seen);
            proof {
                assert(orig.take(i + 1) =~= orig.take(i as int).push(orig[i as int]));
                if m {
                    assert(model_matches(orig.take(i + 1)[i as int], pattern@));
                }
                if seen {
                    let k = choose|k: int| 0 <= k < i && model_matches(#[trigger] orig.take(i as int)[k], pattern@);
                    assert(model_matches(orig.take(i + 1)[k], pattern@));
                }
                if !m && !seen {
                    assert forall|k: int| 0 <= k < i + 1 implies !model_matches(#[trigger] orig.take(i + 1)[k], pattern@) by {
                        if k < i {
                            assert(orig.take(i + 1)[k] == orig.take(i as int)[k]);
                        }
                    }
                }
            }
            seen = seen || m;
            i += 1;
        }
        self.retain_flags(&flags, Ghost(keep_first_pred(orig, pattern@)));
    }

    /// Keep only the last occurrence of fields matching pattern.
    pub fn keep_last(&mut self, pattern: &[u8])
        requires
            old(self).wf(),
        ensures
            final(self)@ == select(old(self)@, keep_last_pred(old(self)@, pattern@)),
            final(self).wf(),
    {
        let ghost orig = self@;
        let n = self.fields.len();
        let mut flags: Vec<bool> = vec![false; n];
        let mut i: usize = n;
        let mut seen = false;
        while i > 0
            invariant
                self@ == orig,
                self.wf(),
                n == orig.len(),
                i <= n,
                flags@.len() == n,
                seen == any_match(orig.skip(i as int), pattern@),
                forall|j: int| i <= j < n ==> #[trigger] flags@[j] == keep_last_pred(orig, pattern@)(j),
            decreases i,
        {
            i -= 1;
            proof {
                self.lemma_fields();
                assert(model_wf(self@[i as int]));
            }
            let m = self.fields[i].name_matches(pattern);
            flags.set(i, !m || !seen);
            proof {
                assert(orig.skip(i as int) =~= seq![orig[i as int]] + orig.skip(i + 1));
                if m {
                    assert(model_matches(orig.skip(i as int)[0], pattern@));
                }
                if seen {
                    let k = choose|k: int| 0 <= k < orig.skip(i + 1).len() && model_matches(#[trigger] orig.skip(i + 1)[k], pattern@);
                    assert(model_matches(orig.skip(i as int)[k + 1], pattern@));
                }
                if !m && !seen {
                    assert forall|k: int| 0 <= k < orig.skip(i as int).len() implies !model_matches(#[trigger] orig.skip(i as int)[k], pattern@) by {
                        if k > 0 {
                            assert(orig.skip(i as int)[k] == orig.skip(i + 1)[k - 1]);
                        }
                    }
                }
            }
            seen = seen || m;
        }
        self.retain_flags(&flags, Ghost(keep_last_pred(orig, pattern@)));
    }

    /// Concatenate continuation lines in all fields.
    pub fn concatenate_all(&mut self)
        requires
            old(self).wf(),
        ensures
            final(self)@ == concat_all(old(self)@),
            final(self).wf(),
    {
        let ghost orig = self@;
        let n0 = self.fields.len();
        assert(orig.len() == n0);
        let mut rest: Vec<Field> = Vec::new();
        std::mem::swap(&mut rest, &mut self.fields);
        let mut done: Vec<Field> = Vec::new();
        let mut i: usize = 0;
        assert(views(rest@) =~= orig.skip(0));
        assert(views(done@) =~= concat_all(orig.take(0)));
        while rest.len() > 0
            invariant
                i <= orig.len(),
                orig.len() <= usize::MAX,
                rest@.len() + i == orig.len(),
                views(rest@) == orig.skip(i as int),
                views(done@) == concat_all(orig.take(i as int)),
                all_wf(orig),
            decreases rest@.len(),
        {
            let ghost before = rest@;
            let mut f = rest.remove(0);
            proof {
                assert(f@ == orig.skip(i as int)[0]);
                assert(model_wf(orig[i as int]));
                assert forall|k: int| 0 <= k < rest@.len() implies #[trigger] views(rest@)[k] == orig.skip(i + 1)[k] by {
                    assert(rest@[k] == before[k + 1]);
                    assert(views(before)[k + 1] == orig.skip(i as int)[k + 1]);
                }
                assert(views(rest@) =~= orig.skip(i + 1));
            }
            f.concatenate();
            assert(concat_all(orig.take(i + 1)) =~= concat_all(orig.take(i as int)).push(f@));
            done.push(f);
            assert(views(done@) =~= concat_all(orig.take(i + 1)));
            i += 1;
        }
        assert(orig.take(i as int) =~= orig);
        self.fields = done;
        proof {
            lemma_flat_concatenated_len(orig);
            assert(all_wf(self@)) by {
                assert forall|k: int| 0 <= k < self@.len() implies model_wf(#[trigger] self@[k]) by {
                    assert(model_wf(orig[k]));
                }
            }
        }
    }

    /// Rename all fields matching old_name to new_name.
    pub fn rename_all(&mut self, old_name: &[u8], new_name: &[u8])
        requires
            old(self).wf(),
            renaming_fits(old(self)@, old_name@, new_name@),
        ensures
            final(self)@ == renamed_all(old(self)@, old_name@, new_name@),
            final(self).wf(),
    {
        let ghost orig = self@;
        let ghost res = renamed_all(orig, old_name@, new_name@);
        let n0 = self.fields.len();
        assert(orig.len() == n0);
        let mut rest: Vec<Field> = Vec::new();
        std::mem::swap(&mut rest, &mut self.fields);
        let mut done: Vec<Field> = Vec::new();
        let mut total: usize = 0;
        let mut i: usize = 0;
        assert(views(rest@) =~= orig.skip(0));
        assert(views(done@) =~= res.take(0));
        while rest.len() > 0
            invariant
                i <= orig.len(),
                orig.len() <= usize::MAX,
                res == renamed_all(orig, old_name@, new_name@),
                renaming_fits(orig, old_name@, new_name@),
                rest@.len() + i == orig.len(),
                views(rest@) == orig.skip(i as int),
                views(done@) == res.take(i as int),
                total == flat(res.take(i as int)).len(),
                all_wf(orig),
                all_wf(views(done@)),
            decreases rest@.len(),
        {
            let ghost before = rest@;
            let mut f = rest.remove(0);
            proof {
                assert(f@ == orig.skip(i as int)[0]);
                assert(model_wf(orig[i as int]));
                assert forall|k: int| 0 <= k < rest@.len() implies #[trigger] views(rest@)[k] == orig.skip(i + 1)[k] by {
                    assert(rest@[k] == before[k + 1]);
                    assert(views(before)[k + 1] == orig.skip(i as int)[k + 1]);
                }
                assert(views(rest@) =~= orig.skip(i + 1));
            }
            if f.name_matches(old_name) {
                f.rename(new_name);
            }
            proof {
                assert(f@ == res[i as int]);
                assert(res.take(i + 1) =~= res.take(i as int).push(f@));
                lemma_flat_push(res.take(i as int), f@);
                lemma_flat_take_le(res, i + 1);
            }
            total = total + f.len();
            done.push(f);
            assert(views(done@) =~= res.take(i + 1));
            i += 1;
        }
        assert(res.take(i as int) =~= res);
        self.fields = done;
        self.byte_len = total;
    }

    /// Prepend "Old-" to all fields matching pattern.
    pub fn prepend_old(&mut self, pattern: &[u8])
        requires
            old(self).wf(),
            prepending_fits(old(self)@, pattern@),
        ensures
            final(self)@ == prepended_old(old(self)@, pattern@),
            final(self).wf(),
    {
        let ghost orig = self@;
        let ghost res = prepended_old(orig, pattern@);
        let n0 = self.fields.len();
        assert(orig.len() == n0);
        let mut rest: Vec<Field> = Vec::new();
        std::mem::swap(&mut rest, &mut self.fields);
        let mut done: Vec<Field> = Vec::new();
        let mut total: usize = 0;
        let mut i: usize = 0;
        assert(views(rest@) =~= orig.skip(0));
        assert(views(done@) =~= res.take(0));
        while rest.len() > 0
            invariant
                i <= orig.len(),
                orig.len() <= usize::MAX,
                res == prepended_old(orig, pattern@),
                prepending_fits(orig, pattern@),
                rest@.len() + i == orig.len(),
                views(rest@) == orig.skip(i as int),
                views(done@) == res.take(i as int),
                total == flat(res.take(i as int)).len(),
                all_wf(orig),
                all_wf(views(done@)),
            decreases rest@.len(),
        {
            let ghost before = rest@;
            let mut f = rest.remove(0);
            proof {
                assert(f@ == orig.skip(i as int)[0]);
                assert(model_wf(orig[i as int]));
                assert forall|k: int| 0 <= k < rest@.len() implies #[trigger] views(rest@)[k] == orig.skip(i + 1)[k] by {
                    assert(rest@[k] == before[k + 1]);
                    assert(views(before)[k + 1] == orig.skip(i as int)[k + 1]);
                }
                assert(views(rest@) =~= orig.skip(i + 1));
            }
            if f.name_matches(pattern) {
                let mut name: Vec<u8> = Vec::new();
                name.push(79);
                name.push(108);
                name.push(100);
                name.push(45);
                let ghost head = name@;
                name.extend_from_slice(f.name());
                name.push(COLON);
                assert(name@ =~= old_name(f@));
                f.rename(name.as_slice());
            }
            proof {
                assert(f@ == res[i as int]);
                assert(res.take(i + 1) =~= res.take(i as int).push(f@));
                lemma_flat_push(res.take(i as int), f@);
                lemma_flat_take_le(res, i + 1);
            }
            total = total + f.len();
            done.push(f);
            assert(views(done@) =~= res.take(i + 1));
            i += 1;
        }
        assert(res.take(i as int) =~= res);
        self.fields = done;
        self.byte_len = total;
    }

    /// Write all fields, one after another, to the end of `out`.
    pub fn write_to(&self, out: &mut Vec<u8>) -> (r: Result<(), ()>)
        ensures
            final(out)@ == old(out)@ + flat(self@),
            r is Ok,
    {
        let mut i: usize = 0;
        while i < self.fields.len()
            invariant
                i <= self@.len(),
                out@ == old(out)@ + flat(self@.take(i as int)),
            decreases self@.len() - i,
        {
            proof {
                self.lemma_fields();
                assert(self@.take(i + 1) =~= self@.take(i as int).push(self@[i as int]));
                lemma_flat_push(self@.take(i as int), self@[i as int]);
            }
            out.extend_from_slice(self.fields[i].as_bytes());
            assert(out@ =~= old(out)@ + flat(self@.take(i + 1)));
            i += 1;
        }
        assert(self@.take(i as int) =~= self@);
        Ok(())
    }

    /// Serialize with continuation lines unfolded (newlines replaced by
    /// spaces), without cloning.
    pub fn unfold_to_bytes(&self) -> (buf: Vec<u8>)
        ensures
            buf@ == flat_unfolded(self@),
    {
        let mut buf: Vec<u8> = Vec::new();
        let mut i: usize = 0;
        while i < self.fields.len()
            invariant
                i <= self@.len(),
                buf@ == flat_unfolded(self@.take(i as int)),
            decreases self@.len() - i,
        {
            proof {
                self.lemma_fields();
                assert(self@.take(i + 1).drop_last() =~= self@.take(i as int));
            }
            let f = &self.fields[i];
            let b = f.as_bytes();
            let ghost start = buf@;
            if f.is_from_line() {
                buf.extend_from_slice(b);
            } else {
                let mut k: usize = 0;
                while k < b.len()
                    invariant
                        k <= b@.len(),
                        !model_is_from_line(f@),
                        b@ == f@.text,
                        buf@ == start + unfolded_text(f@).take(k as int),
                    decreases b@.len() - k,
                {
                    if b[k] == NL && k + 1 < b.len() {
                        buf.push(SP);
                    } else {
                        buf.push(b[k]);
                    }
                    assert(unfolded_text(f@).take(k + 1) =~= unfolded_text(f@).take(k as int).push(unfolded_text(f@)[k as int]));
                    assert(buf@ =~= start + unfolded_text(f@).take(k + 1));
                    k += 1;
                }
                assert(unfolded_text(f@).take(k as int) =~= unfolded_text(f@));
            }
            assert(buf@ =~= flat_unfolded(self@.take(i + 1)));
            i += 1;
        }
        assert(self@.take(i as int) =~= self@);
        buf
    }

    /// Zap whitespace: ensure space after colon and remove empty fields.
    pub fn zap_whitespace(&mut self)
        requires
            old(self).wf(),
            flat(zap_all(old(self)@)).len() <= usize::MAX,
        ensures
            final(self)@ == zapped_list(old(self)@),
            final(self).wf(),
    {
        let ghost orig = self@;
        let ghost res = zap_all(orig);
        let n0 = self.fields.len();
        assert(orig.len() == n0);
        let mut rest: Vec<Field> = Vec::new();
        std::mem::swap(&mut rest, &mut self.fields);
        let mut done: Vec<Field> = Vec::new();
        let mut total: usize = 0;
        let mut i: usize = 0;
        assert(views(rest@) =~= orig.skip(0));
        assert(views(done@) =~= res.take(0));
        while rest.len() > 0
            invariant
                i <= orig.len(),
                orig.len() <= usize::MAX,
                res == zap_all(orig),
                flat(res).len() <= usize::MAX,
                rest@.len() + i == orig.len(),
                views(rest@) == orig.skip(i as int),
                views(done@) == res.take(i as int),
                total == flat(res.take(i as int)).len(),
                all_wf(orig),
                all_wf(views(done@)),
            decreases rest@.len(),
        {
            let ghost before = rest@;
            let mut f = rest.remove(0);
            proof {
                assert(f@ == orig.skip(i as int)[0]);
                assert(model_wf(orig[i as int]));
                assert forall|k: int| 0 <= k < rest@.len() implies #[trigger] views(rest@)[k] == orig.skip(i + 1)[k] by {
                    assert(rest@[k] == before[k + 1]);
                    assert(views(before)[k + 1] == orig.skip(i as int)[k + 1]);
                }
                assert(views(rest@) =~= orig.skip(i + 1));
            }
            f.zap_whitespace();
            proof {
                assert(f@ == res[i as int]);
                assert(res.take(i + 1) =~= res.take(i as int).push(f@));
                lemma_flat_push(res.take(i as int), f@);
                lemma_flat_take_le(res, i + 1);
            }
            total = total + f.len();
            done.push(f);
            assert(views(done@) =~= res.take(i + 1));
            i += 1;
        }
        assert(res.take(i as int) =~= res);
        self.fields = done;
        self.byte_len = total;
        let mut flags: Vec<bool> = Vec::new();
        let mut j: usize = 0;
        while j < self.fields.len()
            invariant
                self@ == res,
                self.wf(),
                j <= self@.len(),
                flags@.len() == j,
                forall|m: int| 0 <= m < j ==> flags@[m] == keep_valued(res)(m),
            decreases self@.len() - j,
        {
            proof {
                self.lemma_fields();
            }
            let e = self.fields[j].is_empty_value();
            flags.push(!e);
            j += 1;
        }
        self.retain_flags(&flags, Ghost(keep_valued(res)));
    }
}

impl core::ops::Deref for FieldList {
    type Target = [Field];

    fn deref(&self) -> (r: &[Field])
        ensures
            views(r@) == self@,
    {
        self.fields.as_slice()
    }
}

/// Parse header fields from a byte slice, skipping malformed lines.
pub fn parse_bytes(header: &[u8]) -> (fields: FieldList)
    requires
        header@.len() + 1 <= usize::MAX,
    ensures
        fields@ == parsed_fields(header@),
        fields.wf(),
{
    let ghost h = header@;
    let len = header.len();
    let mut fields = FieldList::new();
    let mut i: usize = 0;
    while i < len
        invariant
            len == h.len(),
            h == header@,
            h.len() + 1 <= usize::MAX,
            i <= len,
            at_line_start(h, i as nat) || i == 0,
            fields.wf(),
            parse_from(h, i as nat, fields@) == parsed_fields(h),
            flat(fields@).len() <= i + 1,
            i < len ==> flat(fields@).len() <= i,
        decreases len - i,
    {
        let start = i;
        proof {
            lemma_line_end(h, start as nat);
        }
        while i < len && header[i] != NL
            invariant
                start <= i <= len,
                len == h.len(),
                h == header@,
                start < len,
                line_end(h, start as nat) == line_end(h, i as nat),
            decreases len - i,
        {
            i += 1;
        }
        if i < len {
            i += 1;
        }
        let le = i;
        assert(le == line_end(h, start as nat));
        let line = slice_subrange(header, start, le);
        let nl = match find_field_name_end(line) {
            Some(k) => k,
            None => {
                continue;
            },
        };
        if starts_with_from(line) && !fields.is_empty() {
            continue;
        }
        proof {
            lemma_cont_end(h, le as nat);
        }
        let mut end = le;
        while end < len && (header[end] == SP || header[end] == TAB)
            invariant
                le <= end <= len,
                len == h.len(),
                h == header@,
                at_line_start(h, end as nat),
                cont_end(h, le as nat) == cont_end(h, end as nat),
            decreases len - end,
        {
            let e0 = end;
            proof {
                lemma_line_end(h, e0 as nat);
            }
            while end < len && header[end] != NL
                invariant
                    e0 <= end <= len,
                    len == h.len(),
                    h == header@,
                    e0 < len,
                    line_end(h, e0 as nat) == line_end(h, end as nat),
                decreases len - end,
            {
                end += 1;
            }
            if end < len {
                end += 1;
            }
        }
        assert(end == cont_end(h, le as nat));
        let mut text: Vec<u8> = Vec::new();
        text.extend_from_slice(slice_subrange(header, start, end));
        assert(text@ =~= h.subrange(start as int, end as int));
        if !(text.len() > 0 && text[text.len() - 1] == NL) {
            text.push(NL);
        }
        assert(text@ == field_text(h.subrange(start as int, end as int)));
        assert(end < len ==> text@.len() == end - start) by {
            if end < len {
                assert(h[end - 1] == NL);
                assert(h.subrange(start as int, end as int).last() == h[end - 1]);
            }
        }
        let f = Field { text, name_len: nl };
        proof {
            f.lemma_view();
            lemma_flat_push(fields@, f@);
        }
        fields.push(f);
        i = end;
    }
    fields
}

/// Split a message into its header fields and its body, at the first
/// empty line.
pub fn read_headers(input: &[u8]) -> (r: (FieldList, Vec<u8>))
    requires
        input@.len() + 1 <= usize::MAX,
    ensures
        r.0@ == parsed_fields(header_part(input@)),
        r.0.wf(),
        r.1@ == body_part(input@),
{
    let len = input.len();
    let mut s: usize = 0;
    while s < len && !(input[s] == NL && (s == 0 || input[s - 1] == NL))
        invariant
            s <= len,
            len == input@.len(),
            blank_line_from(input@, 0) == blank_line_from(input@, s as nat),
        decreases len - s,
    {
        s += 1;
    }
    let fields = parse_bytes(slice_subrange(input, 0, s));
    let mut body: Vec<u8> = Vec::new();
    if s < len {
        body.extend_from_slice(slice_subrange(input, s + 1, len));
    }
    assert(body@ =~= body_part(input@));
    (fields, body)
}

} // verus!
