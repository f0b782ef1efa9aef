//! Email header field parsing and manipulation.

use vstd::prelude::*;
use vstd::slice::slice_subrange;




mod laws;
mod list;
pub use laws::{
    count_matching, law_keep_first_leaves_one, law_keep_last_leaves_one,
    law_remove_all_leaves_none, law_unfold_is_concatenate_then_write, name_has_no_newline,
};
pub use list::{
    all_wf, any_match, body_part, concat_all, flat, flat_unfolded, header_part, keep_first_pred,
    keep_last_pred, keep_unmatched, keep_valued, lemma_flat_append, lemma_flat_push, lemma_flat_take_le, lemma_line_end, line_end, old_name, parse_bytes, parsed_fields,
    prepended_old, prepending_fits, read_headers, renamed_all, renaming_fits, select,
    unfolded_text, views, zap_all, zapped_list, FieldList,
};

verus! {

/// Space.
pub const SP: u8 = 32;
/// Horizontal tab.
pub const TAB: u8 = 9;
/// Line feed.
pub const NL: u8 = 10;
/// Colon.
pub const COLON: u8 = 58;

/// The mbox envelope prefix `From `.
pub open spec fn from_prefix() -> Seq<u8> {
    seq![70u8, 114u8, 111u8, 109u8, SP]
}

/// `s` begins with `p`.
pub open spec fn starts_with(s: Seq<u8>, p: Seq<u8>) -> bool {
    p.len() <= s.len() && s.subrange(0, p.len() as int) == p
}

/// `s` is non-empty and ends with byte `b`.
pub open spec fn ends_with_byte(s: Seq<u8>, b: u8) -> bool {
    s.len() > 0 && s.last() == b
}

/// ASCII control byte (`u8::is_ascii_control`).
pub open spec fn is_control(b: u8) -> bool {
    b < 32 || b == 127
}

/// A byte that may stand in a field name.
pub open spec fn is_name_byte(b: u8) -> bool {
    b != COLON && b != SP && b != TAB && !is_control(b)
}

/// First index at or after `i` that holds no name byte (or the length).
pub open spec fn name_run(d: Seq<u8>, i: nat) -> nat
    decreases d.len() - i,
{
    if i >= d.len() {
        i
    } else if is_name_byte(d[i as int]) {
        name_run(d, i + 1)
    } else {
        i
    }
}

/// First index at or after `i` that holds neither space nor tab.
pub open spec fn blank_run(d: Seq<u8>, i: nat) -> nat
    decreases d.len() - i,
{
    if i >= d.len() {
        i
    } else if d[i as int] == SP || d[i as int] == TAB {
        blank_run(d, i + 1)
    } else {
        i
    }
}

/// Where the name of a header field ends (just past its colon), if the
/// line is a header field at all: a `From ` envelope line ends its name
/// after the space; otherwise the name is a run of name bytes followed,
/// possibly after blanks, by a colon.
pub open spec fn spec_name_end(d: Seq<u8>) -> Option<nat> {
    if starts_with(d, from_prefix()) {
        Some(5)
    } else {
        let p = name_run(d, 0);
        if p >= d.len() {
            None
        } else if d[p as int] == COLON {
            Some(p + 1)
        } else if d[p as int] == SP || d[p as int] == TAB {
            let q = blank_run(d, p + 1);
            if q < d.len() && d[q as int] == COLON {
                Some(q + 1)
            } else {
                None
            }
        } else {
            None
        }
    }
}

pub(crate) fn starts_with_from(d: &[u8]) -> (b: bool)
    ensures
        b == starts_with(d@, from_prefix()),
{
    if d.len() < 5 {
        return false;
    }
    let r = d[0] == 70u8 && d[1] == 114u8 && d[2] == 111u8 && d[3] == 109u8 && d[4] == SP;
    assert(r == (d@.subrange(0, 5) =~= from_prefix()));
    r
}

/// Find the end of the field name (position after the colon).
/// Returns None if this doesn't look like a valid header field.
pub(crate) fn find_field_name_end(data: &[u8]) -> (r: Option<usize>)
    ensures
        r matches Some(k) ==> spec_name_end(data@) == Some(k as nat),
        r is None ==> spec_name_end(data@) is None,
        r matches Some(k) ==> 1 <= k <= data@.len(),
{
    if starts_with_from(data) {
        return Some(5);
    }
    let mut i: usize = 0;
    while i < data.len()
        invariant
            i <= data.len(),
            !starts_with(data@, from_prefix()),
            name_run(data@, 0) == name_run(data@, i as nat),
        decreases data.len() - i,
    {
        let c = data[i];
        if c == COLON {
            return Some(i + 1);
        } else if c == SP || c == TAB {
            let mut j: usize = i + 1;
            while j < data.len() && (data[j] == SP || data[j] == TAB)
                invariant
                    i < j <= data.len(),
                    !starts_with(data@, from_prefix()),
                    name_run(data@, 0) == i,
                    data@[i as int] == SP || data@[i as int] == TAB,
                    blank_run(data@, (i + 1) as nat) == blank_run(data@, j as nat),
                decreases data.len() - j,
            {
                j += 1;
            }
            if j < data.len() && data[j] == COLON {
                return Some(j + 1);
            }
            return None;
        } else if c < 32 || c == 127 {
            return None;
        }
        i += 1;
    }
    None
}

/// Model of a header field: its full text and the length of its name
/// part (name, any blanks, and the colon).
pub struct FieldModel {
    pub text: Seq<u8>,
    pub name_len: nat,
}

/// The name of a field, without the colon.
pub open spec fn model_name(f: FieldModel) -> Seq<u8> {
    let n = f.name_len as int;
    if n > 0 && f.text[n - 1] == COLON {
        f.text.subrange(0, n - 1)
    } else {
        f.text.subrange(0, n)
    }
}

/// The value of a field: after the name, without the final byte.
pub open spec fn model_value(f: FieldModel) -> Seq<u8> {
    let start = f.name_len as int;
    let end = if f.text.len() > 0 { f.text.len() - 1 } else { 0 };
    if start < end {
        f.text.subrange(start, end)
    } else {
        Seq::empty()
    }
}

/// The field is an mbox `From ` envelope line.
pub open spec fn model_is_from_line(f: FieldModel) -> bool {
    starts_with(f.text, from_prefix())
}

/// A field is well formed when its name lies within its text.
pub open spec fn model_wf(f: FieldModel) -> bool {
    f.name_len <= f.text.len()
}

/// ASCII lower-casing of one byte.
pub open spec fn lower(b: u8) -> u8 {
    if 65u8 <= b && b <= 90u8 {
        (b + 32) as u8
    } else {
        b
    }
}

/// ASCII case-insensitive equality of byte strings.
pub open spec fn eq_ignore_case(a: Seq<u8>, b: Seq<u8>) -> bool {
    a.len() == b.len() && forall|i: int| 0 <= i < a.len() ==> lower(#[trigger] a[i]) == lower(b[i])
}

/// `p` without one trailing colon.
pub open spec fn strip_colon(p: Seq<u8>) -> Seq<u8> {
    if ends_with_byte(p, COLON) {
        p.drop_last()
    } else {
        p
    }
}

/// A pattern matches a name when, without its trailing colon, it is a
/// case-insensitive prefix of the name; a pattern holding a colon
/// (a trailing one too) must match the whole name.
pub open spec fn name_matches_spec(name: Seq<u8>, pattern: Seq<u8>) -> bool {
    let pat = strip_colon(pattern);
    &&& pat.len() <= name.len()
    &&& eq_ignore_case(name.subrange(0, pat.len() as int), pat)
    &&& (pat.len() == name.len() || !pattern.contains(COLON))
}

pub open spec fn model_matches(f: FieldModel, pattern: Seq<u8>) -> bool {
    name_matches_spec(model_name(f), pattern)
}

/// Text of a field built from a name and a value.
pub open spec fn parts_text(name: Seq<u8>, value: Seq<u8>) -> Seq<u8> {
    let t1 = if ends_with_byte(name, COLON) { name } else { name.push(COLON) };
    let t2 = if value.len() > 0 && value[0] != SP && value[0] != TAB {
        t1.push(SP)
    } else {
        t1
    };
    let t3 = t2 + value;
    if ends_with_byte(t3, NL) { t3 } else { t3.push(NL) }
}

/// Name length of a field whose text is `text`, falling back to `dflt`
/// when the text does not parse as a field.
pub open spec fn name_end_or(text: Seq<u8>, dflt: nat) -> nat {
    match spec_name_end(text) {
        Some(k) => k,
        None => dflt,
    }
}

/// Text of a field after renaming it to `new_name`.
pub open spec fn renamed_text(f: FieldModel, new_name: Seq<u8>) -> Seq<u8> {
    let n = f.name_len as int;
    let colon = !ends_with_byte(new_name, COLON) && n > 0 && f.text[n - 1] == COLON;
    let head = if colon { new_name.push(COLON) } else { new_name };
    head + f.text.subrange(n, f.text.len() as int)
}

/// A field renamed to `new_name`.
pub open spec fn model_renamed(f: FieldModel, new_name: Seq<u8>) -> FieldModel {
    let t = renamed_text(f, new_name);
    FieldModel { text: t, name_len: name_end_or(t, new_name.len() + 1) }
}

/// Renaming keeps the name within the text (it fails to only when the
/// old field has nothing after its name and the new text does not parse
/// as a field).
pub open spec fn model_renamable(f: FieldModel, new_name: Seq<u8>) -> bool {
    model_wf(model_renamed(f, new_name))
}

/// A field with its continuation lines joined: every newline in the
/// value part, except the last byte, becomes a space.
pub open spec fn model_concatenated(f: FieldModel) -> FieldModel {
    if model_is_from_line(f) {
        f
    } else {
        FieldModel {
            text: Seq::new(
                f.text.len(),
                |i: int|
                    if i >= f.name_len && i + 1 < f.text.len() && f.text[i] == NL {
                        SP
                    } else {
                        f.text[i]
                    },
            ),
            name_len: f.name_len,
        }
    }
}

/// The field has no value at all (and is no envelope line).
pub open spec fn model_is_empty_value(f: FieldModel) -> bool {
    !model_is_from_line(f) && model_value(f).len() == 0
}

/// `zap_whitespace` inserts a space after the colon when the byte there
/// is no blank or newline.
pub open spec fn model_zap_applies(f: FieldModel) -> bool {
    &&& !model_is_from_line(f)
    &&& f.name_len < f.text.len()
    &&& f.text[f.name_len as int] != SP
    &&& f.text[f.name_len as int] != TAB
    &&& f.text[f.name_len as int] != NL
}

pub open spec fn model_zapped(f: FieldModel) -> FieldModel {
    if model_zap_applies(f) {
        FieldModel { text: f.text.insert(f.name_len as int, SP), name_len: f.name_len }
    } else {
        f
    }
}

/// A parsed email header field.
#[derive(Debug, Clone)]
pub struct Field {
    text: Vec<u8>,
    name_len: usize,
}

impl View for Field {
    type V = FieldModel;

    closed spec fn view(&self) -> FieldModel {
        FieldModel { text: self.text@, name_len: self.name_len as nat }
    }
}

impl Field {
    /// Well-formedness: the name lies within the text.
    pub open spec fn wf(&self) -> bool {
        model_wf(self@)
    }

    proof fn lemma_view(&self)
        ensures
            self@.text == self.text@,
            self@.name_len == self.name_len,
    {
    }

    /// A field with the same text and name.
    pub fn duplicate(&self) -> (r: Field)
        ensures
            r@ == self@,
    {
        let mut t: Vec<u8> = Vec::new();
        t.extend_from_slice(self.text.as_slice());
        assert(t@ =~= self.text@);
        Field { text: t, name_len: self.name_len }
    }

    /// Full text of the field as a byte slice.
    pub fn as_bytes(&self) -> (r: &[u8])
        ensures
            r@ == self@.text,
    {
        self.text.as_slice()
    }

    /// Length of field name including colon (and any whitespace before colon).
    pub fn name_len(&self) -> (r: usize)
        ensures
            r == self@.name_len,
    {
        self.name_len
    }

    /// Create a field from raw text.
    pub fn new(text: Vec<u8>) -> (r: Option<Field>)
        ensures
            r is None <==> spec_name_end(text@) is None,
            r matches Some(f) ==> f@.text == text@ && spec_name_end(text@) == Some(f@.name_len)
                && f.wf(),
    {
        match find_field_name_end(text.as_slice()) {
            Some(name_len) => Some(Field { text, name_len }),
            None => None,
        }
    }

    /// Create a field from name and value.
    pub fn from_parts(name: &[u8], value: &[u8]) -> (r: Field)
        requires
            name@.len() + value@.len() + 3 <= usize::MAX,
        ensures
            r@.text == parts_text(name@, value@),
            r@.name_len == name_end_or(parts_text(name@, value@), name@.len() + 1),
            r.wf(),
    {
        let mut text: Vec<u8> = Vec::with_capacity(name.len() + value.len() + 2);
        text.extend_from_slice(name);
        assert(text@ =~= name@);
        if !(name.len() > 0 && name[name.len() - 1] == COLON) {
            text.push(COLON);
        }
        if value.len() > 0 && value[0] != SP && value[0] != TAB {
            text.push(SP);
        }
        let ghost t2 = text@;
        text.extend_from_slice(value);
        assert(text@ =~= t2 + value@);
        if !(text.len() > 0 && text[text.len() - 1] == NL) {
            text.push(NL);
        }
        let name_len = match find_field_name_end(text.as_slice()) {
            Some(k) => k,
            None => name.len() + 1,
        };
        Field { text, name_len }
    }

    fn name_end(&self) -> (e: usize)
        requires
            self.wf(),
        ensures
            e as int == (if self@.name_len > 0 && self@.text[self@.name_len - 1] == COLON {
                self@.name_len - 1
            } else {
                self@.name_len as int
            }),
    {
        if self.name_len > 0 && self.text[self.name_len - 1] == COLON {
            self.name_len - 1
        } else {
            self.name_len
        }
    }

    /// The field name (without colon).
    pub fn name(&self) -> (r: &[u8])
        requires
            self.wf(),
        ensures
            r@ == model_name(self@),
    {
        let end = self.name_end();
        slice_subrange(self.text.as_slice(), 0, end)
    }

    /// The field value (after colon, without trailing newline).
    pub fn value(&self) -> (r: &[u8])
        ensures
            r@ == model_value(self@),
    {
        let start = self.name_len;
        let end = if self.text.len() > 0 { self.text.len() - 1 } else { 0 };
        if start < end {
            slice_subrange(self.text.as_slice(), start, end)
        } else {
            assert(Seq::<u8>::empty() =~= model_value(self@));
            &[]
        }
    }

    /// Whether this is a From_ line (mbox envelope).
    pub fn is_from_line(&self) -> (b: bool)
        ensures
            b == model_is_from_line(self@),
    {
        starts_with_from(self.text.as_slice())
    }

    /// Total length of the field.
    pub fn len(&self) -> (r: usize)
        ensures
            r == self@.text.len(),
    {
        self.text.len()
    }

    /// Whether this field has no text.
    pub fn is_empty(&self) -> (b: bool)
        ensures
            b == (self@.text.len() == 0),
    {
        self.text.len() == 0
    }

    /// Check if name matches (case-insensitive, prefix match allowed if
    /// pattern contains no colon; `Subject:` matches the whole name only).
    pub fn name_matches(&self, pattern: &[u8]) -> (b: bool)
        requires
            self.wf(),
        ensures
            b == model_matches(self@, pattern@),
    {
        let name = self.name();
        let plen = if pattern.len() > 0 && pattern[pattern.len() - 1] == COLON {
            pattern.len() - 1
        } else {
            pattern.len()
        };
        let ghost pat = strip_colon(pattern@);
        assert(pat =~= pattern@.subrange(0, plen as int));
        if plen > name.len() {
            return false;
        }
        let mut i: usize = 0;
        while i < plen
            invariant
                i <= plen <= name@.len(),
                plen <= pattern@.len(),
                name@ == model_name(self@),
                pat == strip_colon(pattern@),
                pat =~= pattern@.subrange(0, plen as int),
                forall|j: int| 0 <= j < i ==> lower(#[trigger] name@[j]) == lower(pattern@[j]),
            decreases plen - i,
        {
            if lower_byte(name[i]) != lower_byte(pattern[i]) {
                assert(lower(name@.subrange(0, plen as int)[i as int]) != lower(pat[i as int]));
                return false;
            }
            i += 1;
        }
        assert(eq_ignore_case(name@.subrange(0, plen as int), pat));
        if plen == name.len() {
            return true;
        }
        let n = pattern.len();
        let mut k: usize = 0;
        while k < n
            invariant
                k <= n,
                n == pattern@.len(),
                plen <= pattern@.len(),
                plen < name@.len(),
                name@ == model_name(self@),
                pat == strip_colon(pattern@),
                eq_ignore_case(name@.subrange(0, plen as int), pat),
                pat =~= pattern@.subrange(0, plen as int),
                forall|j: int| 0 <= j < k ==> pattern@[j] != COLON,
            decreases n - k,
        {
            if pattern[k] == COLON {
                assert(pattern@[k as int] == COLON);
                return false;
            }
            k += 1;
        }
        true
    }

    /// Rename this field by changing the name portion.
    pub fn rename(&mut self, new_name: &[u8])
        requires
            old(self).wf(),
            model_renamable(old(self)@, new_name@),
            new_name@.len() + old(self)@.text.len() + 2 <= usize::MAX,
        ensures
            final(self)@ == model_renamed(old(self)@, new_name@),
            final(self).wf(),
    {
        let old_value_start = self.name_len;
        let mut new_text: Vec<u8> = Vec::new();
        new_text.extend_from_slice(new_name);
        assert(new_text@ =~= new_name@);
        if !(new_name.len() > 0 && new_name[new_name.len() - 1] == COLON) && old_value_start > 0
            && self.text[old_value_start - 1] == COLON {
            new_text.push(COLON);
        }
        let ghost head = new_text@;
        let rest = slice_subrange(self.text.as_slice(), old_value_start, self.text.len());
        new_text.extend_from_slice(rest);
        assert(new_text@ =~= head + rest@);
        let nl = match find_field_name_end(new_text.as_slice()) {
            Some(k) => k,
            None => new_name.len() + 1,
        };
        self.name_len = nl;
        self.text = new_text;
    }

    /// Concatenate continuation lines (replace newlines in value with spaces).
    pub fn concatenate(&mut self)
        requires
            old(self).wf(),
        ensures
            final(self)@ == model_concatenated(old(self)@),
            final(self).wf(),
    {
        if self.is_from_line() {
            return;
        }
        let ghost orig = self.text@;
        let mut i = self.name_len;
        while i < self.text.len()
            invariant
                self.name_len == old(self).name_len,
                self.text@.len() == orig.len(),
                orig == old(self)@.text,
                !model_is_from_line(old(self)@),
                self.name_len <= i <= orig.len(),
                forall|j: int| 0 <= j < orig.len() ==> #[trigger] self.text@[j] == (if j < i && j >= self.name_len && j + 1 < orig.len() && orig[j] == NL {
                    SP
                } else {
                    orig[j]
                }),
            decreases orig.len() - i,
        {
            if self.text[i] == NL && i + 1 < self.text.len() {
                self.text.set(i, SP);
            }
            i += 1;
        }
        assert(self@.text =~= model_concatenated(old(self)@).text);
    }

    /// Check if this field is empty (has no value content).
    pub fn is_empty_value(&self) -> (b: bool)
        ensures
            b == model_is_empty_value(self@),
    {
        if self.is_from_line() {
            return false;
        }
        self.value().len() == 0
    }

    /// Ensure there's a space after the colon. Returns true if field was
    /// modified.
    pub fn zap_whitespace(&mut self) -> (b: bool)
        requires
            old(self).wf(),
        ensures
            b == model_zap_applies(old(self)@),
            final(self)@ == model_zapped(old(self)@),
            final(self).wf(),
    {
        if self.is_from_line() {
            return false;
        }
        if self.name_len >= self.text.len() {
            return false;
        }
        let after_colon = self.text[self.name_len];
        if after_colon != SP && after_colon != TAB && after_colon != NL {
            self.text.insert(self.name_len, SP);
            true
        } else {
            false
        }
    }
}

/// ASCII lower-casing of one byte.
pub fn lower_byte(b: u8) -> (r: u8)
    ensures
        r == lower(b),
{
    if 65 <= b && b <= 90 {
        b + 32
    } else {
        b
    }
}

} // verus!
