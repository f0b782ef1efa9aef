//! What formail writes besides the message itself: extracted fields,
//! the procmail-style log summary, the `From_` line it adds, and the
//! duplicate check's key.

use vstd::prelude::*;
use vstd::slice::slice_subrange;
use vstd::utf8::{decode_utf8, encode_utf8, valid_utf8};

use super::headers::{text_bytes, Args};
use super::reply::{first_field, message_id_name};
use super::sender::{get_sender, sender_of, senders_readable, SenderMode};
use crate::config::strings_view;
use crate::dedup::{key_decision, record_key, CacheDecision};
use crate::field::{
    flat, model_is_from_line, model_matches, model_value, Field, FieldList, FieldModel, NL, TAB,
};
use crate::num::{decimal, push_decimal};
use crate::text::{chars_of, skip_ws_from, str_from_utf8, string_from, trim, trim_bounds, trim_start};

verus! {

/// `u8::is_ascii_whitespace`.
pub open spec fn is_ascii_ws(b: u8) -> bool {
    b == 32 || b == 9 || b == 10 || b == 12 || b == 13
}

/// `<[u8]>::trim_ascii`: `b` without ASCII whitespace at either end.
pub open spec fn trim_ascii(b: Seq<u8>) -> Seq<u8>
    decreases b.len(),
{
    if b.len() > 0 && is_ascii_ws(b[0]) {
        trim_ascii(b.drop_first())
    } else if b.len() > 0 && is_ascii_ws(b.last()) {
        trim_ascii(b.drop_last())
    } else {
        b
    }
}

fn trim_ascii_exec(b: &[u8]) -> (r: &[u8])
    ensures
        r@ == trim_ascii(b@),
{
    let mut a: usize = 0;
    let mut e: usize = b.len();
    assert(b@.subrange(0, b@.len() as int) =~= b@);
    while a < e && (b[a] == 32 || b[a] == 9 || b[a] == 10 || b[a] == 12 || b[a] == 13)
        invariant
            a <= e <= b@.len(),
            e == b@.len(),
            trim_ascii(b@.subrange(a as int, e as int)) == trim_ascii(b@),
        decreases e - a,
    {
        assert(b@.subrange(a as int, e as int).drop_first() =~= b@.subrange(a + 1, e as int));
        a += 1;
    }
    while a < e && (b[e - 1] == 32 || b[e - 1] == 9 || b[e - 1] == 10 || b[e - 1] == 12 || b[e - 1] == 13)
        invariant
            a <= e <= b@.len(),
            a == e || !is_ascii_ws(b@[a as int]),
            trim_ascii(b@.subrange(a as int, e as int)) == trim_ascii(b@),
        decreases e - a,
    {
        assert(b@.subrange(a as int, e as int).drop_last() =~= b@.subrange(a as int, e - 1));
        e -= 1;
    }
    slice_subrange(b, a, e)
}

/// The values (`-x`) or whole fields (`-X`) of the fields that the
/// patterns name: for each `-x` pattern in turn, each matching field's
/// value (trimmed with `-z`) and a newline; then for each `-X` pattern
/// each matching field's text.
pub open spec fn extracted_values(s: Seq<FieldModel>, pats: Seq<Seq<char>>, zap: bool) -> Seq<u8>
    decreases pats.len(),
{
    if pats.len() == 0 {
        Seq::empty()
    } else {
        extracted_values(s, pats.drop_last(), zap) + values_of(s, text_bytes(pats.last()), zap, s.len() as int)
    }
}

/// The values of the first `n` fields of `s` that match `p`, each with a
/// newline.
pub open spec fn values_of(s: Seq<FieldModel>, p: Seq<u8>, zap: bool, n: int) -> Seq<u8>
    decreases n,
{
    if n <= 0 {
        Seq::empty()
    } else {
        let prev = values_of(s, p, zap, n - 1);
        let f = s[n - 1];
        if model_matches(f, p) {
            prev + (if zap { trim_ascii(model_value(f)) } else { model_value(f) }) + seq![NL]
        } else {
            prev
        }
    }
}

/// The texts of the first `n` fields of `s` that match `p`.
pub open spec fn texts_of(s: Seq<FieldModel>, p: Seq<u8>, n: int) -> Seq<u8>
    decreases n,
{
    if n <= 0 {
        Seq::empty()
    } else {
        let prev = texts_of(s, p, n - 1);
        if model_matches(s[n - 1], p) {
            prev + s[n - 1].text
        } else {
            prev
        }
    }
}

pub open spec fn extracted_texts(s: Seq<FieldModel>, pats: Seq<Seq<char>>) -> Seq<u8>
    decreases pats.len(),
{
    if pats.len() == 0 {
        Seq::empty()
    } else {
        extracted_texts(s, pats.drop_last()) + texts_of(s, text_bytes(pats.last()), s.len() as int)
    }
}

/// What `-x` and `-X` write.
pub open spec fn extracted(a: Args, s: Seq<FieldModel>) -> Seq<u8> {
    extracted_values(s, strings_view(a.extract@), a.zap) + extracted_texts(s, strings_view(a.extract_keep@))
}

fn push_values(fields: &FieldList, p: &[u8], zap: bool, out: &mut Vec<u8>)
    requires
        fields.wf(),
    ensures
        final(out)@ == old(out)@ + values_of(fields@, p@, zap, fields@.len() as int),
{
    let n = fields.len();
    let mut k: usize = 0;
    while k < n
        invariant
            fields.wf(),
            n == fields@.len(),
            k <= n,
            out@ == old(out)@ + values_of(fields@, p@, zap, k as int),
        decreases n - k,
    {
        let f = fields.get(k);
        assert(f.wf());
        if f.name_matches(p) {
            let v = if zap {
                trim_ascii_exec(f.value())
            } else {
                f.value()
            };
            let ghost before = out@;
            out.extend_from_slice(v);
            out.push(NL);
            assert(out@ =~= before + v@ + seq![NL]);
        }
        k += 1;
    }
}

fn push_texts(fields: &FieldList, p: &[u8], out: &mut Vec<u8>)
    requires
        fields.wf(),
    ensures
        final(out)@ == old(out)@ + texts_of(fields@, p@, fields@.len() as int),
{
    let n = fields.len();
    let mut k: usize = 0;
    while k < n
        invariant
            fields.wf(),
            n == fields@.len(),
            k <= n,
            out@ == old(out)@ + texts_of(fields@, p@, k as int),
        decreases n - k,
    {
        let f = fields.get(k);
        assert(f.wf());
        if f.name_matches(p) {
            let ghost before = out@;
            out.extend_from_slice(f.as_bytes());
            assert(out@ =~= before + f@.text);
        }
        k += 1;
    }
}

/// Write the extracted fields to `out`: the `-x` values, then the `-X`
/// fields.
pub fn output_extracted(args: &Args, fields: &FieldList, out: &mut Vec<u8>)
    requires
        fields.wf(),
    ensures
        final(out)@ == old(out)@ + extracted(*args, fields@),
{
    let ghost start = out@;
    let ghost ps = strings_view(args.extract@);
    let mut i: usize = 0;
    while i < args.extract.len()
        invariant
            fields.wf(),
            ps == strings_view(args.extract@),
            i <= ps.len(),
            start == old(out)@,
            out@ == start + extracted_values(fields@, ps.take(i as int), args.zap),
        decreases ps.len() - i,
    {
        let ghost before = out@;
        push_values(fields, args.extract[i].as_str().as_bytes(), args.zap, out);
        assert(ps.take(i + 1).drop_last() =~= ps.take(i as int));
        assert(out@ =~= start + extracted_values(fields@, ps.take(i + 1), args.zap));
        i += 1;
    }
    assert(ps.take(i as int) =~= ps);
    let ghost mid = out@;
    let ghost qs = strings_view(args.extract_keep@);
    let mut i: usize = 0;
    while i < args.extract_keep.len()
        invariant
            fields.wf(),
            qs == strings_view(args.extract_keep@),
            i <= qs.len(),
            out@ == mid + extracted_texts(fields@, qs.take(i as int)),
        decreases qs.len() - i,
    {
        push_texts(fields, args.extract_keep[i].as_str().as_bytes(), out);
        assert(qs.take(i + 1).drop_last() =~= qs.take(i as int));
        assert(out@ =~= mid + extracted_texts(fields@, qs.take(i + 1)));
        i += 1;
    }
    assert(qs.take(i as int) =~= qs);
}

/// The key that `-D` looks up: the sender (with `-r`; weighed for a reply
/// with `-t`), or the message id, trimmed; then without leading
/// whitespace.
pub open spec fn duplicate_key(a: Args, s: Seq<FieldModel>) -> Seq<char> {
    let key = if a.reply {
        match sender_of(s, if a.trust { SenderMode::Reply } else { SenderMode::Envelope }) {
            Some(k) => k,
            None => Seq::empty(),
        }
    } else {
        match first_field(s, message_id_name()) {
            Some(f) => if valid_utf8(model_value(f)) {
                trim(decode_utf8(model_value(f)))
            } else {
                Seq::empty()
            },
            None => Seq::empty(),
        }
    };
    trim_start(key)
}

/// Check if message is a duplicate using an id cache whose first
/// `maxlen` bytes are `contents`: the key (see `duplicate_key`) looked up
/// and recorded as `dedup::record_key` does.
pub fn check_duplicate(args: &Args, fields: &FieldList, contents: &[u8], maxlen: usize) -> (r: CacheDecision)
    requires
        fields.wf(),
        args.reply ==> senders_readable(fields@),
    ensures
        match key_decision(encode_utf8(duplicate_key(*args, fields@)), contents@, maxlen as nat) {
            None => r == CacheDecision::Blank,
            Some(None) => r == CacheDecision::Duplicate,
            Some(Some(c2)) => r matches CacheDecision::Insert(v) && v@ == c2,
        },
{
    let key: Vec<char> = if args.reply {
        let mode = if args.trust {
            SenderMode::Reply
        } else {
            SenderMode::Envelope
        };
        match get_sender(fields, mode) {
            Some(k) => chars_of(k.as_str()),
            None => Vec::new(),
        }
    } else {
        let mid: [u8; 10] = [77u8, 101, 115, 115, 97, 103, 101, 45, 73, 68];
        assert(mid@ =~= message_id_name());
        match super::reply::first_of(fields, mid.as_slice()) {
            Some(f) => match str_from_utf8(f.value()) {
                Some(s) => {
                    let c = chars_of(s);
                    let (a, b) = trim_bounds(c.as_slice());
                    vstd::slice::slice_to_vec(slice_subrange(c.as_slice(), a, b))
                },
                None => Vec::new(),
            },
            None => Vec::new(),
        }
    };
    let a = skip_ws_from(key.as_slice(), 0);
    proof {
        crate::text::lemma_skip_ws_all(key@, 0);
    }
    let ks = string_from(slice_subrange(key.as_slice(), a, key.len()));
    assert(ks@ =~= duplicate_key(*args, fields@));
    record_key(ks.as_str().as_bytes(), contents, maxlen)
}

/// The subject as the log shows it: the value as text, trimmed, each tab
/// a space.
pub open spec fn log_subject_text(f: FieldModel) -> Seq<char> {
    trim(crate::text::utf8_lossy(model_value(f))).map_values(|c: char| if c == '\t' { ' ' } else { c })
}

pub open spec fn log_subject_bytes(f: FieldModel) -> Seq<u8> {
    encode_utf8(log_subject_text(f))
}

/// The subject can be cut at 78 bytes: it is no longer, or its 79th byte
/// starts a character.
pub open spec fn log_subject_cuttable(s: Seq<FieldModel>) -> bool {
    match first_field(s, super::reply::subject_name()) {
        Some(f) => {
            let b = log_subject_bytes(f);
            b.len() <= 78 || !(128 <= b[78] && b[78] < 192)
        },
        None => true,
    }
}

/// `n` spaces.
pub open spec fn spaces(n: nat) -> Seq<u8> {
    Seq::new(n, |i: int| 32u8)
}

/// From column `col`, tabs to the tab stops (every 8 columns) that do not
/// pass `target`, then spaces to `target`.
pub open spec fn pad(col: nat, target: nat) -> Seq<u8>
    decreases target - col,
{
    if col >= target {
        Seq::empty()
    } else {
        let next: nat = ((col / 8 + 1) * 8) as nat;
        if next <= target {
            seq![TAB] + pad(next, target)
        } else {
            spaces((target - col) as nat)
        }
    }
}

/// The `From_` line that starts the log summary, if the header has one.
pub open spec fn log_first_line(s: Seq<FieldModel>) -> Seq<u8> {
    if s.len() > 0 && model_is_from_line(s[0]) {
        s[0].text
    } else {
        Seq::empty()
    }
}

/// The subject line of the log summary, if the header has a subject.
pub open spec fn log_subject_line(s: Seq<FieldModel>) -> Seq<u8> {
    match first_field(s, super::reply::subject_name()) {
        Some(f) => {
            let b = log_subject_bytes(f);
            subject_tag() + (if b.len() > 78 {
                b.take(78)
            } else {
                b
            }) + seq![NL]
        },
        None => Seq::empty(),
    }
}

/// ` Subject: `, `  Folder: `.
pub open spec fn subject_tag() -> Seq<u8> {
    seq![32u8, 83u8, 117u8, 98u8, 106u8, 101u8, 99u8, 116u8, 58u8, 32u8]
}

pub open spec fn folder_tag() -> Seq<u8> {
    seq![32u8, 32u8, 70u8, 111u8, 108u8, 100u8, 101u8, 114u8, 58u8, 32u8]
}

/// The procmail-style log summary of a message of `len` bytes filed to
/// `folder`: its `From_` line, ` Subject: ` and the subject (at most 78
/// bytes), then `  Folder: `, the folder and the length right-aligned
/// to column 79.
pub open spec fn log_summary_text(folder: Seq<char>, s: Seq<FieldModel>, len: nat) -> Seq<u8> {
    let first = log_first_line(s);
    let subj = log_subject_line(s);
    let fb = encode_utf8(folder);
    let num = encode_utf8(decimal(len));
    let target: nat = if num.len() <= 79 { (79 - num.len()) as nat } else { 0 };
    first + subj + folder_tag() + fb + pad(10 + fb.len(), target) + num + seq![NL]
}

pub proof fn lemma_next_stop(col: nat)
    ensures
        ((col / 8 + 1) * 8) as nat > col,
{
}

/// The subject bytes as the log shows them.
fn log_subject(f: &Field) -> (r: Vec<u8>)
    ensures
        r@ == log_subject_bytes(f@),
{
    let lv = crate::text::lossy_string(f.value());
    let c = chars_of(lv.as_str());
    let (a, b) = trim_bounds(c.as_slice());
    let t = slice_subrange(c.as_slice(), a, b);
    let mut v: Vec<char> = Vec::new();
    let mut i: usize = 0;
    while i < t.len()
        invariant
            i <= t@.len(),
            v@ == t@.take(i as int).map_values(|c: char| if c == '\t' { ' ' } else { c }),
        decreases t@.len() - i,
    {
        let c = t[i];
        v.push(if c == '\t' { ' ' } else { c });
        assert(v@ =~= t@.take(i + 1).map_values(|c: char| if c == '\t' { ' ' } else { c }));
        i += 1;
    }
    assert(t@.take(i as int) =~= t@);
    let s = string_from(v.as_slice());
    vstd::slice::slice_to_vec(s.as_str().as_bytes())
}

fn push_first_line(fields: &FieldList, out: &mut Vec<u8>)
    requires
        fields.wf(),
    ensures
        final(out)@ == old(out)@ + log_first_line(fields@),
{
    if fields.len() > 0 {
        let f0 = fields.get(0);
        if f0.is_from_line() {
            out.extend_from_slice(f0.as_bytes());
            return;
        }
    }
    assert(old(out)@ + log_first_line(fields@) =~= old(out)@);
}

fn push_subject_line(fields: &FieldList, out: &mut Vec<u8>)
    requires
        fields.wf(),
        log_subject_cuttable(fields@),
    ensures
        final(out)@ == old(out)@ + log_subject_line(fields@),
{
    let subj_pat: [u8; 7] = [83u8, 117, 98, 106, 101, 99, 116];
    assert(subj_pat@ =~= super::reply::subject_name());
    match super::reply::first_of(fields, subj_pat.as_slice()) {
        Some(f) => {
            let sb = log_subject(f);
            let tag: [u8; 10] = [32u8, 83, 117, 98, 106, 101, 99, 116, 58, 32];
            assert(tag@ =~= subject_tag());
            out.extend_from_slice(tag.as_slice());
            if sb.len() > 78 {
                out.extend_from_slice(slice_subrange(sb.as_slice(), 0, 78));
            } else {
                out.extend_from_slice(sb.as_slice());
            }
            out.push(NL);
            assert(out@ =~= old(out)@ + log_subject_line(fields@));
        },
        None => {
            assert(old(out)@ + log_subject_line(fields@) =~= old(out)@);
        },
    }
}

fn push_spaces(out: &mut Vec<u8>, n: usize)
    ensures
        final(out)@ == old(out)@ + spaces(n as nat),
{
    let mut j: usize = 0;
    while j < n
        invariant
            j <= n,
            out@ == old(out)@ + spaces(j as nat),
        decreases n - j,
    {
        out.push(32u8);
        assert(out@ =~= old(out)@ + spaces((j + 1) as nat));
        j += 1;
    }
}

fn push_pad(out: &mut Vec<u8>, fbl: usize, target: usize)
    requires
        target <= 79,
    ensures
        final(out)@ == old(out)@ + pad((10 + fbl) as nat, target as nat),
{
    if fbl >= 69 {
        assert(pad((10 + fbl) as nat, target as nat) =~= Seq::<u8>::empty());
        assert(old(out)@ + Seq::<u8>::empty() =~= old(out)@);
        return;
    }
    let ghost col0 = (10 + fbl) as nat;
    let mut col: usize = 10 + fbl;
    assert(out@ + pad(col as nat, target as nat) =~= old(out)@ + pad(col0, target as nat));
    while col < target
        invariant
            target <= 79,
            col <= 79,
            out@ + pad(col as nat, target as nat) == old(out)@ + pad(col0, target as nat),
        decreases target - col,
    {
        let next = (col / 8 + 1) * 8;
        proof {
            lemma_next_stop(col as nat);
        }
        if next <= target {
            let ghost before = out@;
            out.push(TAB);
            assert(pad(col as nat, target as nat) == seq![TAB] + pad(next as nat, target as nat));
            assert(out@ + pad(next as nat, target as nat) =~= before + pad(col as nat, target as nat));
            col = next;
        } else {
            let ghost before = out@;
            push_spaces(out, target - col);
            assert(pad(col as nat, target as nat) == spaces((target - col) as nat));
            assert(pad(target as nat, target as nat) =~= Seq::<u8>::empty());
            assert(out@ + pad(target as nat, target as nat) =~= before + pad(col as nat, target as nat));
            col = target;
        }
    }
    assert(pad(col as nat, target as nat) =~= Seq::<u8>::empty());
    assert(out@ =~= out@ + pad(col as nat, target as nat));
}

/// Write the log summary to `out`.
pub fn output_log_summary(folder: &str, fields: &FieldList, len: usize, out: &mut Vec<u8>)
    requires
        fields.wf(),
        log_subject_cuttable(fields@),
    ensures
        final(out)@ == old(out)@ + log_summary_text(folder@, fields@, len as nat),
{
    push_first_line(fields, out);
    push_subject_line(fields, out);
    let ftag: [u8; 10] = [32u8, 32, 70, 111, 108, 100, 101, 114, 58, 32];
    assert(ftag@ =~= folder_tag());
    out.extend_from_slice(ftag.as_slice());
    let fb = folder.as_bytes();
    out.extend_from_slice(fb);
    let mut digits: Vec<char> = Vec::new();
    push_decimal(&mut digits, len as u64);
    assert(digits@ =~= decimal(len as nat));
    let num_s = string_from(digits.as_slice());
    let num = num_s.as_str().as_bytes();
    let target: usize = if num.len() <= 79 { 79 - num.len() } else { 0 };
    push_pad(out, fb.len(), target);
    out.extend_from_slice(num);
    out.push(NL);
    assert(out@ =~= old(out)@ + log_summary_text(folder@, fields@, len as nat));
}

/// The log summary, where the subject can be cut at 78 bytes; `None`
/// where it cannot (a character would be cut in two).
pub fn log_summary(folder: &str, fields: &FieldList, len: usize) -> (r: Option<Vec<u8>>)
    requires
        fields.wf(),
    ensures
        match r {
            Some(v) => log_subject_cuttable(fields@) && v@ == log_summary_text(folder@, fields@, len as nat),
            None => !log_subject_cuttable(fields@),
        },
{
    let subj_pat: [u8; 7] = [83u8, 117, 98, 106, 101, 99, 116];
    assert(subj_pat@ =~= super::reply::subject_name());
    match super::reply::first_of(fields, subj_pat.as_slice()) {
        Some(f) => {
            let sb = log_subject(f);
            if sb.len() > 78 && 128 <= sb[78] && sb[78] < 192 {
                return None;
            }
        },
        None => {},
    }
    let mut out: Vec<u8> = Vec::new();
    output_log_summary(folder, fields, len, &mut out);
    assert(out@ =~= log_summary_text(folder@, fields@, len as nat));
    Some(out)
}

/// A `From_` line: `From `, the envelope sender (or `UNKNOWN`), a space,
/// the time stamp, a newline.
pub open spec fn from_line_text(s: Seq<FieldModel>, timestamp: Seq<char>) -> Seq<u8> {
    let sender = match sender_of(s, SenderMode::Envelope) {
        Some(a) => a,
        None => seq!['U', 'N', 'K', 'N', 'O', 'W', 'N'],
    };
    encode_utf8(seq!['F', 'r', 'o', 'm', ' '] + sender + seq![' '] + timestamp + seq!['\n'])
}

/// The `From_` line for a header and a time stamp.
pub fn from_line_for(fields: &FieldList, timestamp: &str) -> (r: Vec<u8>)
    requires
        fields.wf(),
        senders_readable(fields@),
    ensures
        r@ == from_line_text(fields@, timestamp@),
{
    let sender = match get_sender(fields, SenderMode::Envelope) {
        Some(a) => a,
        None => string_from(['U', 'N', 'K', 'N', 'O', 'W', 'N'].as_slice()),
    };
    let mut v: Vec<char> = Vec::new();
    v.push('F');
    v.push('r');
    v.push('o');
    v.push('m');
    v.push(' ');
    let mut sc = chars_of(sender.as_str());
    v.append(&mut sc);
    v.push(' ');
    let mut tc = chars_of(timestamp);
    v.append(&mut tc);
    v.push('\n');
    let s = string_from(v.as_slice());
    assert(s@ =~= seq!['F', 'r', 'o', 'm', ' '] + sender@ + seq![' '] + timestamp@ + seq!['\n']);
    vstd::slice::slice_to_vec(s.as_str().as_bytes())
}

/// The `From_` line formail adds to a header that lacks one, stamped with
/// the local time now.  The time rests on the clock: what is stated is
/// the line's form for some time stamp.
pub fn generate_from_line(fields: &FieldList) -> (r: Vec<u8>)
    requires
        fields.wf(),
        senders_readable(fields@),
    ensures
        exists|ts: Seq<char>| r@ == from_line_text(fields@, ts),
{
    let ts = from_timestamp();
    from_line_for(fields, ts.as_str())
}

/// The local time now, as a `From_` line gives it
/// (`Mon Jan  1 00:00:00 2024`).  The time rests on the clock: nothing
/// is stated of it.
pub fn from_timestamp() -> String {
    crate::system::local_timestamp("%a %b %e %H:%M:%S %Y")
}

} // verus!
