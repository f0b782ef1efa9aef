//! Reading a procmail log: each `  Folder:` line counts a message for its
//! folder; each other line that is no `From `, ` Subject:` or empty line
//! counts as a diagnostic.

use vstd::prelude::*;
use vstd::slice::slice_subrange;
use vstd::utf8::{decode_utf8, valid_utf8};

use super::totals::{add_entry, add_fits, lex_lt, sorted_names, Stats, Totals};
use crate::config::{words, words_in};
use crate::delivery::{trim_end_char, trim_end_len};
use crate::formail::headers::{eq_ignore_case_chars, eq_ignore_case_exec};
use crate::formail::split::{lemma_newline_from, newline_from};
use crate::num::{parse_unsigned, parse_unsigned_chars};
use crate::engine::{regex_first_replaced, regex_replace_first};
use crate::text::{chars_of, str_from_utf8, string_from, trim, trim_bounds};

verus! {

/// The pattern of a Maildir delivery's file name: `/new/` and a name.
pub open spec fn maildir_new_pattern() -> Seq<char> {
    seq!['/', 'n', 'e', 'w', '/', '[', '^', '/', ']', '+', '$']
}

/// A folder name without its trailing slashes.
pub open spec fn without_trailing_slashes(s: Seq<char>) -> Seq<char> {
    trim_end_char(s, '/')
}

/// Strip trailing slashes from a folder name (an mbox delivered as a
/// Maildir).
pub fn strip_trailing_slashes(s: &str) -> (r: String)
    ensures
        r@ == without_trailing_slashes(s@),
{
    let v = chars_of(s);
    let k = trim_end_len(v.as_slice(), '/', v.len());
    assert(v@.take(v@.len() as int) =~= v@);
    string_from(slice_subrange(v.as_slice(), 0, k))
}

/// A folder as the statistics name it: a Maildir delivery's
/// `/new/<file>` taken off, then trailing slashes.
pub open spec fn normalized_folder(name: Seq<char>) -> Seq<char> {
    match regex_first_replaced(maildir_new_pattern(), false, name, Seq::empty()) {
        Some(s) => without_trailing_slashes(s),
        None => without_trailing_slashes(name),
    }
}

/// Normalize a folder name: strip a Maildir delivery suffix
/// (`/new/unique-filename`), then trailing slashes.
pub fn normalize_folder(name: &str) -> (r: String)
    ensures
        r@ == normalized_folder(name@),
{
    let pat = string_from(['/', 'n', 'e', 'w', '/', '[', '^', '/', ']', '+', '$'].as_slice());
    let empty = String::new();
    assert(pat@ =~= maildir_new_pattern());
    match regex_replace_first(pat.as_str(), false, name, empty.as_str()) {
        Some(s) => strip_trailing_slashes(s.as_str()),
        None => strip_trailing_slashes(name),
    }
}

/// `seg` without one final carriage return.
pub open spec fn strip_cr(seg: Seq<u8>) -> Seq<u8> {
    if seg.len() > 0 && seg.last() == 13u8 {
        seg.drop_last()
    } else {
        seg
    }
}

/// The line of `b` from `i` to the newline (or the end) at `e`: a
/// carriage return before the newline is taken off; a last line without
/// a newline keeps its bytes.
pub open spec fn line_at(b: Seq<u8>, i: int, e: int) -> Seq<u8> {
    if e < b.len() {
        strip_cr(b.subrange(i, e))
    } else {
        b.subrange(i, e)
    }
}

/// The lines of `b` from `i` on, as `BufRead::lines` reads them: split
/// at newlines, each without the carriage return before its newline; no
/// line after a final newline.
pub open spec fn raw_lines(b: Seq<u8>, i: nat) -> Seq<Seq<u8>>
    decreases b.len() - i,
{
    if i >= b.len() {
        Seq::empty()
    } else {
        proof {
            lemma_newline_from(b, i);
        }
        let e = newline_from(b, i);
        seq![line_at(b, i as int, e as int)] + (if e < b.len() {
            raw_lines(b, e + 1)
        } else {
            Seq::empty()
        })
    }
}

/// `  Folder: `.
pub open spec fn folder_tag_chars() -> Seq<char> {
    seq![' ', ' ', 'F', 'o', 'l', 'd', 'e', 'r', ':', ' ']
}

/// ` subject:`.
pub open spec fn subject_tag_chars() -> Seq<char> {
    seq![' ', 's', 'u', 'b', 'j', 'e', 'c', 't', ':']
}

/// The folder and size of a `  Folder: <path> <size>` line.
pub open spec fn folder_entry(line: Seq<char>) -> Option<(Seq<char>, nat)> {
    if line.len() >= 10 && line.take(10) == folder_tag_chars() {
        let ws = words(line.skip(10));
        if ws.len() >= 2 {
            match parse_unsigned(ws[1], u64::MAX as nat) {
                Some(n) => Some((ws[0], n)),
                None => None,
            }
        } else {
            None
        }
    } else {
        None
    }
}

/// Lines that count for nothing: `From ` lines, ` Subject:` lines (in
/// any case), empty lines, and every line of an old log.
pub open spec fn skipped_line(line: Seq<char>, use_old: bool) -> bool {
    ||| (line.len() >= 5 && line.take(5) == seq!['F', 'r', 'o', 'm', ' '])
    ||| (line.len() >= 9 && eq_ignore_case_chars(line.take(9), subject_tag_chars()))
    ||| line.len() == 0
    ||| use_old
}

/// `## diagnostic messages ##`.
pub open spec fn merged_key() -> Seq<char> {
    seq!['#', '#', ' ', 'd', 'i', 'a', 'g', 'n', 'o', 's', 't', 'i', 'c', ' ', 'm', 'e', 's', 's', 'a', 'g', 'e', 's', ' ', '#', '#']
}

/// What one line of the log counts: the folder (or diagnostic) and the
/// bytes, if anything.
pub open spec fn line_effect(line: Seq<char>, merge: bool, use_old: bool) -> Option<(Seq<char>, int)> {
    match folder_entry(line) {
        Some((p, n)) => Some((normalized_folder(p), n as int)),
        None => if skipped_line(line, use_old) {
            None
        } else if merge {
            Some((merged_key(), 0int))
        } else {
            Some((seq!['#', '#', ' '] + trim(line), 0int))
        },
    }
}

/// The counts after one line of the log.
pub open spec fn log_step(s: Seq<(Seq<char>, (int, int))>, line: Seq<char>, merge: bool, use_old: bool) -> Seq<(Seq<char>, (int, int))> {
    match line_effect(line, merge, use_old) {
        Some((k, n)) => add_entry(s, k, n),
        None => s,
    }
}

/// The counts after the lines `ls` (those that are no UTF-8 are passed
/// over).
pub open spec fn log_totals(ls: Seq<Seq<u8>>, merge: bool, use_old: bool) -> Seq<(Seq<char>, (int, int))>
    decreases ls.len(),
{
    if ls.len() == 0 {
        Seq::empty()
    } else {
        let prev = log_totals(ls.drop_last(), merge, use_old);
        if valid_utf8(ls.last()) {
            log_step(prev, decode_utf8(ls.last()), merge, use_old)
        } else {
            prev
        }
    }
}

/// The copy of the log that is written aside: each UTF-8 line and a
/// newline.
pub open spec fn log_copy(ls: Seq<Seq<u8>>) -> Seq<u8>
    decreases ls.len(),
{
    if ls.len() == 0 {
        Seq::empty()
    } else if valid_utf8(ls.last()) {
        log_copy(ls.drop_last()) + ls.last() + seq![10u8]
    } else {
        log_copy(ls.drop_last())
    }
}

/// The sizes that the folder lines of `ls` give, added up.
pub open spec fn log_bytes(ls: Seq<Seq<u8>>) -> int
    decreases ls.len(),
{
    if ls.len() == 0 {
        0
    } else {
        log_bytes(ls.drop_last()) + if valid_utf8(ls.last()) {
            match folder_entry(decode_utf8(ls.last())) {
                Some((p, n)) => n as int,
                None => 0,
            }
        } else {
            0
        }
    }
}

/// Every folder has at most `m` messages and `b` bytes.
pub open spec fn bounded(s: Seq<(Seq<char>, (int, int))>, m: int, b: int) -> bool {
    forall|i: int| 0 <= i < s.len() ==> 0 <= #[trigger] s[i].1.0 <= m && 0 <= s[i].1.1 <= b
}

pub proof fn lemma_add_bounded(s: Seq<(Seq<char>, (int, int))>, key: Seq<char>, n: int, m: int, b: int)
    requires
        bounded(s, m, b),
        n >= 0,
        m >= 0,
        b >= 0,
    ensures
        bounded(add_entry(s, key, n), m + 1, b + n),
    decreases s.len(),
{
    let r = add_entry(s, key, n);
    if s.len() == 0 {
    } else if s[0].0 == key {
        assert forall|i: int| 0 <= i < r.len() implies 0 <= #[trigger] r[i].1.0 <= m + 1 && 0 <= r[i].1.1 <= b + n by {
            if i > 0 {
                assert(r[i] == s[i]);
            }
        }
    } else if lex_lt(key, s[0].0) {
        assert forall|i: int| 0 <= i < r.len() implies 0 <= #[trigger] r[i].1.0 <= m + 1 && 0 <= r[i].1.1 <= b + n by {
            if i > 0 {
                assert(r[i] == s[i - 1]);
            }
        }
    } else {
        let t = s.drop_first();
        assert(bounded(t, m, b)) by {
            assert forall|i: int| 0 <= i < t.len() implies 0 <= #[trigger] t[i].1.0 <= m && 0 <= t[i].1.1 <= b by {
                assert(t[i] == s[i + 1]);
            }
        }
        lemma_add_bounded(t, key, n, m, b);
        let rt = add_entry(t, key, n);
        assert(r =~= seq![s[0]] + rt);
        assert forall|i: int| 0 <= i < r.len() implies 0 <= #[trigger] r[i].1.0 <= m + 1 && 0 <= r[i].1.1 <= b + n by {
            if i > 0 {
                assert(r[i] == rt[i - 1]);
            }
        }
    }
}

pub proof fn lemma_log_bytes_prefix(ls: Seq<Seq<u8>>, k: int)
    requires
        0 <= k <= ls.len(),
    ensures
        0 <= log_bytes(ls.take(k)) <= log_bytes(ls),
    decreases ls.len() - k,
{
    if k < ls.len() {
        lemma_log_bytes_prefix(ls, k + 1);
        assert(ls.take(k + 1).drop_last() =~= ls.take(k));
        assert(ls.take(k + 1).last() == ls[k]);
        lemma_log_bytes_nonneg(ls.take(k));
    } else {
        assert(ls.take(k) =~= ls);
        lemma_log_bytes_nonneg(ls);
    }
}

pub proof fn lemma_log_bytes_nonneg(ls: Seq<Seq<u8>>)
    ensures
        log_bytes(ls) >= 0,
    decreases ls.len(),
{
    if ls.len() > 0 {
        lemma_log_bytes_nonneg(ls.drop_last());
    }
}

pub proof fn lemma_raw_lines_len(b: Seq<u8>, i: nat)
    ensures
        raw_lines(b, i).len() <= if i >= b.len() { 0 } else { b.len() - i },
    decreases b.len() - i,
{
    if i < b.len() {
        lemma_newline_from(b, i);
        let e = newline_from(b, i);
        if e < b.len() {
            lemma_raw_lines_len(b, e + 1);
        }
    }
}

/// What one line counts, computed.
fn line_effect_exec(line: &str, merge: bool, use_old: bool) -> (r: Option<(String, u64)>)
    ensures
        match r {
            Some((k, n)) => line_effect(line@, merge, use_old) == Some((k@, n as int)),
            None => line_effect(line@, merge, use_old) is None,
        },
{
    let v = chars_of(line);
    let n = v.len();
    let tag: [char; 10] = [' ', ' ', 'F', 'o', 'l', 'd', 'e', 'r', ':', ' '];
    assert(tag@ =~= folder_tag_chars());
    if n >= 10 && crate::text::occurs_at_exec(v.as_slice(), tag.as_slice(), 0) {
        assert(v@.take(10) =~= v@.subrange(0, 10));
        let rest = slice_subrange(v.as_slice(), 10, n);
        assert(rest@ =~= v@.skip(10));
        let ws = words_in(rest, 0);
        if ws.len() >= 2 {
            let sz = chars_of(ws[1].as_str());
            match parse_unsigned_chars(sz.as_slice(), u64::MAX) {
                Some(bytes) => {
                    return Some((normalize_folder(ws[0].as_str()), bytes));
                },
                None => {},
            }
        }
    } else {
        proof {
            if n >= 10 {
                assert(v@.take(10) =~= v@.subrange(0, 10));
            }
        }
    }
    assert(folder_entry(line@) is None);
    let from: [char; 5] = ['F', 'r', 'o', 'm', ' '];
    let subj: [char; 9] = [' ', 's', 'u', 'b', 'j', 'e', 'c', 't', ':'];
    assert(from@ =~= seq!['F', 'r', 'o', 'm', ' ']);
    assert(subj@ =~= subject_tag_chars());
    let is_from = n >= 5 && crate::text::occurs_at_exec(v.as_slice(), from.as_slice(), 0);
    proof {
        if n >= 5 {
            assert(v@.take(5) =~= v@.subrange(0, 5));
        }
    }
    let is_subj = n >= 9 && eq_ignore_case_exec(slice_subrange(v.as_slice(), 0, 9), subj.as_slice());
    proof {
        if n >= 9 {
            assert(v@.take(9) =~= v@.subrange(0, 9));
        }
    }
    if is_from || is_subj || n == 0 || use_old {
        return None;
    }
    if merge {
        let k = string_from(
            [
                '#', '#', ' ', 'd', 'i', 'a', 'g', 'n', 'o', 's', 't', 'i', 'c', ' ', 'm', 'e', 's', 's', 'a', 'g', 'e', 's', ' ', '#', '#',
            ].as_slice(),
        );
        assert(k@ =~= merged_key());
        return Some((k, 0));
    }
    let (a, b) = trim_bounds(v.as_slice());
    let mut kv: Vec<char> = Vec::new();
    kv.push('#');
    kv.push('#');
    kv.push(' ');
    let mut t = vstd::slice::slice_to_vec(slice_subrange(v.as_slice(), a, b));
    kv.append(&mut t);
    let k = string_from(kv.as_slice());
    assert(k@ =~= seq!['#', '#', ' '] + trim(line@));
    Some((k, 0))
}

/// Read a procmail log: count each `  Folder: <path> <size>` line for its
/// folder (a Maildir delivery's file name and trailing slashes taken
/// off), and, unless reading an old log, each other line that is no
/// `From `, ` Subject:` or empty line as a diagnostic (all under one name
/// with `merge`).  Each line that is UTF-8 is copied to `writer` with a
/// newline.
pub fn parse_log(input: &[u8], writer: &mut Vec<u8>, merge: bool, use_old: bool) -> (r: Totals)
    requires
        log_bytes(raw_lines(input@, 0)) <= u64::MAX,
    ensures
        r@ == log_totals(raw_lines(input@, 0), merge, use_old),
        r.wf(),
        final(writer)@ == old(writer)@ + log_copy(raw_lines(input@, 0)),
{
    let ghost all = raw_lines(input@, 0);
    let mut totals = Totals::new();
    let n = input.len();
    let mut i: usize = 0;
    let ghost mut k: int = 0;
    proof {
        lemma_raw_lines_len(input@, 0);
        lemma_log_bytes_nonneg(all);
        assert(all.take(0) =~= Seq::<Seq<u8>>::empty());
        assert(all.skip(0) =~= all);
    }
    while i < n
        invariant
            n == input@.len(),
            i <= n,
            0 <= k <= all.len(),
            k <= i,
            all == raw_lines(input@, 0),
            all.skip(k) == raw_lines(input@, i as nat),
            totals@ == log_totals(all.take(k), merge, use_old),
            totals.wf(),
            writer@ == old(writer)@ + log_copy(all.take(k)),
            bounded(totals@, k, log_bytes(all.take(k))),
            log_bytes(all) <= u64::MAX,
        decreases n - i,
    {
        let mut e = i;
        while e < n && input[e] != 10u8
            invariant
                n == input@.len(),
                i <= e <= n,
                newline_from(input@, i as nat) == newline_from(input@, e as nat),
            decreases n - e,
        {
            e += 1;
        }
        proof {
            lemma_newline_from(input@, i as nat);
        }
        let seg0 = slice_subrange(input, i, e);
        let seg = if e < n && seg0.len() > 0 && seg0[seg0.len() - 1] == 13u8 {
            slice_subrange(seg0, 0, seg0.len() - 1)
        } else {
            seg0
        };
        assert(seg@ =~= line_at(input@, i as int, e as int));
        let ghost line = seg@;
        assert(raw_lines(input@, i as nat)[0] == line);
        assert(raw_lines(input@, i as nat).len() > 0);
        assert(k < all.len());
        assert(all[k] == line) by {
            assert(all.skip(k)[0] == all[k]);
        }
        proof {
            lemma_log_bytes_prefix(all, k + 1);
            assert(all.take(k + 1).drop_last() =~= all.take(k));
            lemma_log_bytes_nonneg(all.take(k));
        }
        match str_from_utf8(seg) {
            Some(s) => {
                writer.extend_from_slice(seg);
                writer.push(10u8);
                match line_effect_exec(s, merge, use_old) {
                    Some((key, bytes)) => {
                        assert(bytes as int == (match folder_entry(s@) {
                            Some((p, m)) => m as int,
                            None => 0int,
                        }));
                        assert(log_bytes(all.take(k + 1)) == log_bytes(all.take(k)) + bytes);
                        proof {
                            assert forall|j: int| 0 <= j < totals@.len() && #[trigger] totals@[j].0 == key@ implies totals@[j].1.0 < u64::MAX && totals@[j].1.1 + bytes <= u64::MAX by {
                                assert(totals@[j].1.0 <= k);
                            }
                            lemma_add_bounded(totals@, key@, bytes as int, k, log_bytes(all.take(k)));
                        }
                        totals.add(key, bytes);
                    },
                    None => {},
                }
            },
            None => {},
        }
        assert(writer@ =~= old(writer)@ + log_copy(all.take(k + 1)));
        proof {
            if e < n {
                assert(raw_lines(input@, i as nat).drop_first() == raw_lines(input@, (e + 1) as nat));
            } else {
                assert(raw_lines(input@, i as nat).drop_first() =~= Seq::<Seq<u8>>::empty());
            }
            assert(all.skip(k + 1) =~= all.skip(k).drop_first());
            k = k + 1;
        }
        if e >= n {
            i = n;
        } else {
            i = e + 1;
        }
        proof {
            if e >= n {
                assert(raw_lines(input@, n as nat) =~= Seq::<Seq<u8>>::empty());
            }
        }
    }
    proof {
        lemma_raw_lines_len(input@, i as nat);
        assert(all.skip(k).len() == 0);
        assert(all.take(k) =~= all);
    }
    totals
}

/// Whether the sizes of a log's folder lines add up to at most
/// `u64::MAX`, as `parse_log` needs.
pub fn log_bytes_fit(input: &[u8]) -> (b: bool)
    ensures
        b == (log_bytes(raw_lines(input@, 0)) <= u64::MAX),
{
    let ghost all = raw_lines(input@, 0);
    let n = input.len();
    let mut i: usize = 0;
    let mut sum: u64 = 0;
    let ghost mut k: int = 0;
    proof {
        lemma_raw_lines_len(input@, 0);
        assert(all.take(0) =~= Seq::<Seq<u8>>::empty());
        assert(all.skip(0) =~= all);
    }
    while i < n
        invariant
            n == input@.len(),
            i <= n,
            0 <= k <= all.len(),
            k <= i,
            all == raw_lines(input@, 0),
            all.skip(k) == raw_lines(input@, i as nat),
            sum == log_bytes(all.take(k)),
        decreases n - i,
    {
        let mut e = i;
        while e < n && input[e] != 10u8
            invariant
                n == input@.len(),
                i <= e <= n,
                newline_from(input@, i as nat) == newline_from(input@, e as nat),
            decreases n - e,
        {
            e += 1;
        }
        proof {
            lemma_newline_from(input@, i as nat);
        }
        let seg0 = slice_subrange(input, i, e);
        let seg = if e < n && seg0.len() > 0 && seg0[seg0.len() - 1] == 13u8 {
            slice_subrange(seg0, 0, seg0.len() - 1)
        } else {
            seg0
        };
        assert(seg@ =~= line_at(input@, i as int, e as int));
        let ghost line = seg@;
        assert(raw_lines(input@, i as nat)[0] == line);
        assert(raw_lines(input@, i as nat).len() > 0);
        assert(k < all.len());
        assert(all[k] == line) by {
            assert(all.skip(k)[0] == all[k]);
        }
        proof {
            assert(all.take(k + 1).drop_last() =~= all.take(k));
            lemma_log_bytes_nonneg(all.take(k));
        }
        match str_from_utf8(seg) {
            Some(s) => {
                match line_effect_exec(s, false, true) {
                    Some((_key, bytes)) => {
                        assert(bytes as int == (match folder_entry(s@) {
                            Some((p, m)) => m as int,
                            None => 0int,
                        }));
                        assert(log_bytes(all.take(k + 1)) == log_bytes(all.take(k)) + bytes);
                        match sum.checked_add(bytes) {
                            Some(t) => {
                                sum = t;
                            },
                            None => {
                                proof {
                                    lemma_log_bytes_prefix(all, k + 1);
                                }
                                return false;
                            },
                        }
                    },
                    None => {
                        assert(folder_entry(s@) is None);
                        assert(log_bytes(all.take(k + 1)) == log_bytes(all.take(k)));
                    },
                }
            },
            None => {
                assert(log_bytes(all.take(k + 1)) == log_bytes(all.take(k)));
            },
        }
        proof {
            if e < n {
                assert(raw_lines(input@, i as nat).drop_first() == raw_lines(input@, (e + 1) as nat));
            } else {
                assert(raw_lines(input@, i as nat).drop_first() =~= Seq::<Seq<u8>>::empty());
            }
            assert(all.skip(k + 1) =~= all.skip(k).drop_first());
            k = k + 1;
        }
        if e >= n {
            i = n;
        } else {
            i = e + 1;
        }
        proof {
            if e >= n {
                assert(raw_lines(input@, n as nat) =~= Seq::<Seq<u8>>::empty());
            }
        }
    }
    proof {
        lemma_raw_lines_len(input@, i as nat);
        assert(all.skip(k).len() == 0);
        assert(all.take(k) =~= all);
    }
    true
}

} // verus!
