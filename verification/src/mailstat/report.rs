//! What mailstat reports: the folders kept, the column widths, and the
//! table of totals.

use vstd::prelude::*;
use vstd::slice::slice_subrange;
use vstd::utf8::{decode_utf8, encode_utf8, valid_utf8};

use super::log::{lemma_raw_lines_len, raw_lines};
use super::totals::{entries_view, kept_entries, sorted_names, stats_view, Stats, Totals};
use crate::config::strings_view;
use crate::formail::split::{lemma_newline_from, newline_from};
use crate::num::{decimal, push_decimal};
use crate::text::{chars_of, str_from_utf8, string_from, trim, trim_bounds};

verus! {

/// `## `: the start of a diagnostic's name.
pub open spec fn diagnostic_prefix() -> Seq<char> {
    seq!['#', '#', ' ']
}

/// Whether a folder stays in the report: not ignored, and no diagnostic
/// when diagnostics are left out.
pub open spec fn keeps(name: Seq<char>, ignores: Seq<Seq<char>>, quiet: bool) -> bool {
    !(quiet && name.len() >= 3 && name.take(3) == diagnostic_prefix()) && !ignores.contains(name)
}

/// The flags of `keeps` for each entry.
pub open spec fn keep_flags(s: Seq<(Seq<char>, (int, int))>, ignores: Seq<Seq<char>>, quiet: bool) -> Seq<bool> {
    Seq::new(s.len(), |i: int| keeps(s[i].0, ignores, quiet))
}

/// Whether `name` is among `ignores`.
fn ignored(name: &String, ignores: &[String]) -> (b: bool)
    ensures
        b == strings_view(ignores@).contains(name@),
{
    let mut i: usize = 0;
    while i < ignores.len()
        invariant
            i <= ignores@.len(),
            forall|j: int| 0 <= j < i ==> ignores@[j]@ != name@,
        decreases ignores@.len() - i,
    {
        if ignores[i] == *name {
            assert(strings_view(ignores@)[i as int] == name@);
            return true;
        }
        i += 1;
    }
    assert forall|j: int| 0 <= j < strings_view(ignores@).len() implies strings_view(ignores@)[j] != name@ by {
        assert(strings_view(ignores@)[j] == ignores@[j]@);
    }
    false
}

/// Drop the ignored folders, and the diagnostics when `quiet`.
pub fn filter_totals(totals: Totals, ignores: &[String], quiet: bool) -> (r: Totals)
    requires
        totals.wf(),
    ensures
        r@ == kept_entries(totals@, keep_flags(totals@, strings_view(ignores@), quiet)),
        r.wf(),
{
    let ghost s = totals@;
    let mut flags: Vec<bool> = Vec::new();
    let n = totals.len();
    let mut i: usize = 0;
    while i < n
        invariant
            n == totals@.len(),
            s == totals@,
            i <= n,
            flags@ == keep_flags(s, strings_view(ignores@), quiet).take(i as int),
        decreases n - i,
    {
        let (name, _) = &totals.entries()[i];
        assert(name@ == s[i as int].0);
        let nv = chars_of(name.as_str());
        let diag = quiet && nv.len() >= 3 && nv[0] == '#' && nv[1] == '#' && nv[2] == ' ';
        proof {
            if nv@.len() >= 3 {
                assert((nv@.take(3) == diagnostic_prefix()) == (nv@[0] == '#' && nv@[1] == '#' && nv@[2] == ' ')) by {
                    if nv@[0] == '#' && nv@[1] == '#' && nv@[2] == ' ' {
                        assert(nv@.take(3) =~= diagnostic_prefix());
                    }
                }
            }
        }
        let keep = !diag && !ignored(name, ignores);
        flags.push(keep);
        assert(flags@ =~= keep_flags(s, strings_view(ignores@), quiet).take(i + 1));
        i += 1;
    }
    assert(flags@ =~= keep_flags(s, strings_view(ignores@), quiet));
    totals.retain_by(&flags)
}

/// `base` with `suffix` added to its name.
pub fn with_suffix(base: &str, suffix: &str) -> (r: String)
    ensures
        r@ == base@ + suffix@,
{
    let mut v = chars_of(base);
    let mut w = chars_of(suffix);
    v.append(&mut w);
    string_from(v.as_slice())
}

/// The log to read: the log itself, or its `.old` copy.
pub fn input_path(base: &str, use_old: bool) -> (r: String)
    ensures
        r@ == if use_old { base@ + seq!['.', 'o', 'l', 'd'] } else { base@ },
{
    if use_old {
        let old = string_from(['.', 'o', 'l', 'd'].as_slice());
        with_suffix(base, old.as_str())
    } else {
        base.to_string()
    }
}

/// The number of decimal digits of `n`.
pub fn digits(n: u64) -> (r: usize)
    ensures
        r == decimal(n as nat).len(),
{
    let mut m = n;
    let mut c: usize = 1;
    proof {
        crate::num::lemma_decimal_len_u64(n);
    }
    while m >= 10
        invariant
            1 <= c,
            decimal(n as nat).len() <= 20,
            c + decimal(m as nat).len() == decimal(n as nat).len() + 1,
        decreases m,
    {
        assert(decimal(m as nat).len() == decimal((m / 10) as nat).len() + 1);
        proof {
            crate::num::lemma_decimal_len_u64(m / 10);
        }
        m = m / 10;
        c = c + 1;
    }
    c
}

/// The widths of the columns.
#[derive(Debug, Clone, Copy, PartialEq, Eq, Structural)]
pub struct Widths {
    /// Total bytes.
    pub bytes: usize,
    /// Average bytes per message.
    pub avg: usize,
    /// Number of messages.
    pub msgs: usize,
    /// Folder names.
    pub folder: usize,
}

/// The most digits an average of the first `k` folders with messages
/// has (0 if none has messages).
pub open spec fn avg_digits_max(s: Seq<(Seq<char>, (int, int))>, k: int) -> int
    decreases k,
{
    if k <= 0 {
        0
    } else {
        let prev = avg_digits_max(s, k - 1);
        let e = s[k - 1];
        if e.1.0 > 0 {
            let d = decimal((e.1.1 / e.1.0) as nat).len() as int;
            if d > prev { d } else { prev }
        } else {
            prev
        }
    }
}

/// The longest folder name among the first `k`, in UTF-8 bytes.
pub open spec fn name_len_max(s: Seq<(Seq<char>, (int, int))>, k: int) -> int
    decreases k,
{
    if k <= 0 {
        0
    } else {
        let prev = name_len_max(s, k - 1);
        let d = encode_utf8(s[k - 1].0).len() as int;
        if d > prev { d } else { prev }
    }
}

pub open spec fn at_least(a: int, b: int) -> int {
    if a > b { a } else { b }
}

/// The widths for a table of `s` with these totals: each column as wide
/// as its widest number and at least as wide as its heading.
pub open spec fn widths_of(s: Seq<(Seq<char>, (int, int))>, msgs: u64, bytes: u64) -> Widths {
    let a = avg_digits_max(s, s.len() as int);
    Widths {
        bytes: at_least(decimal(bytes as nat).len() as int, 5) as usize,
        avg: at_least(if a == 0 { 1 } else { a }, 7) as usize,
        msgs: at_least(decimal(msgs as nat).len() as int, 6) as usize,
        folder: at_least(name_len_max(s, s.len() as int), 6) as usize,
    }
}

impl Widths {
    /// The column widths for a table of `totals`.
    pub fn compute(totals: &Totals, msgs: u64, bytes: u64) -> (w: Widths)
        requires
            forall|i: int| 0 <= i < totals@.len() ==> 0 <= #[trigger] totals@[i].1.0 <= u64::MAX && 0 <= totals@[i].1.1 <= u64::MAX,
        ensures
            w == widths_of(totals@, msgs, bytes),
    {
        let es = totals.entries();
        let n = es.len();
        let mut avg: usize = 0;
        let mut folder: usize = 0;
        let mut k: usize = 0;
        while k < n
            invariant
                n == es@.len(),
                entries_view(es@) == totals@,
                k <= n,
                avg as int == avg_digits_max(totals@, k as int),
                folder as int == name_len_max(totals@, k as int),
            decreases n - k,
        {
            let (name, st) = &es[k];
            assert(totals@[k as int] == (name@, stats_view(*st)));
            if st.msgs > 0 {
                let d = digits(st.bytes / st.msgs);
                if d > avg {
                    avg = d;
                }
            }
            let l = name.as_str().as_bytes().len();
            if l > folder {
                folder = l;
            }
            k += 1;
        }
        let a = if avg == 0 { 1 } else { avg };
        let db = digits(bytes);
        let dm = digits(msgs);
        Widths {
            bytes: if db > 5 { db } else { 5 },
            avg: if a > 7 { a } else { 7 },
            msgs: if dm > 6 { dm } else { 6 },
            folder: if folder > 6 { folder } else { 6 },
        }
    }
}

/// `n` copies of `c`.
pub open spec fn repeat(c: char, n: nat) -> Seq<char> {
    Seq::new(n, |i: int| c)
}

/// `s` right-aligned in `w` columns (`{:>w$}`).
pub open spec fn rjust(s: Seq<char>, w: nat) -> Seq<char> {
    if s.len() >= w { s } else { repeat(' ', (w - s.len()) as nat) + s }
}

pub(crate) fn push_repeat(v: &mut Vec<char>, c: char, n: usize)
    ensures
        final(v)@ == old(v)@ + repeat(c, n as nat),
{
    let mut i: usize = 0;
    while i < n
        invariant
            i <= n,
            v@ == old(v)@ + repeat(c, i as nat),
        decreases n - i,
    {
        v.push(c);
        assert(v@ =~= old(v)@ + repeat(c, (i + 1) as nat));
        i += 1;
    }
}

pub(crate) fn push_chars(v: &mut Vec<char>, s: &[char])
    ensures
        final(v)@ == old(v)@ + s@,
{
    let mut t = vstd::slice::slice_to_vec(s);
    v.append(&mut t);
}

fn push_rjust(v: &mut Vec<char>, s: &[char], w: usize)
    ensures
        final(v)@ == old(v)@ + rjust(s@, w as nat),
{
    if s.len() < w {
        push_repeat(v, ' ', w - s.len());
    }
    let ghost mid = v@;
    push_chars(v, s);
    assert(v@ =~= old(v)@ + rjust(s@, w as nat));
}

pub(crate) fn push_number(v: &mut Vec<char>, n: u64, w: usize)
    ensures
        final(v)@ == old(v)@ + rjust(decimal(n as nat), w as nat),
{
    let d = crate::num::decimal_chars(n);
    push_rjust(v, d.as_slice(), w);
}

/// Append the UTF-8 bytes of `v`.
fn push_text(out: &mut Vec<u8>, v: &[char])
    ensures
        final(out)@ == old(out)@ + encode_utf8(v@),
{
    let s = string_from(v);
    out.extend_from_slice(s.as_str().as_bytes());
    assert(out@ =~= old(out)@ + encode_utf8(v@));
}

/// The two table layouts.
#[derive(Debug, Clone, Copy, PartialEq, Eq, Structural)]
pub enum Format {
    /// With an average column.
    Long,
    /// Without it.
    Short,
}

/// Two spaces.
pub open spec fn gap() -> Seq<char> {
    seq![' ', ' ']
}

/// The average column of a long table, with its gap.
pub open spec fn avg_column(f: Format, text: Seq<char>) -> Seq<char> {
    match f {
        Format::Long => text + gap(),
        Format::Short => Seq::empty(),
    }
}

/// The heading line.
pub open spec fn header_text(f: Format, w: Widths) -> Seq<char> {
    gap() + rjust(seq!['T', 'o', 't', 'a', 'l'], w.bytes as nat) + gap() + avg_column(
        f,
        rjust(seq!['A', 'v', 'e', 'r', 'a', 'g', 'e'], w.avg as nat),
    ) + rjust(seq!['N', 'u', 'm', 'b', 'e', 'r'], w.msgs as nat) + seq![' ', ' ', 'F', 'o', 'l', 'd', 'e', 'r', '\n']
}

/// The line of dashes under the heading and above the totals.
pub open spec fn sep_text(f: Format, w: Widths) -> Seq<char> {
    gap() + repeat('-', w.bytes as nat) + gap() + avg_column(f, repeat('-', w.avg as nat)) + repeat('-', w.msgs as nat) + gap()
        + repeat('-', w.folder as nat) + seq!['\n']
}

/// The average of `bytes` over `msgs` (0 for no messages).
pub open spec fn average(bytes: u64, msgs: u64) -> nat {
    if msgs > 0 { (bytes / msgs) as nat } else { 0 }
}

/// One folder's line.
pub open spec fn row_text(f: Format, w: Widths, prefix: Seq<char>, s: Stats, name: Seq<char>) -> Seq<char> {
    prefix + rjust(decimal(s.bytes as nat), w.bytes as nat) + gap() + avg_column(
        f,
        rjust(decimal(average(s.bytes, s.msgs)), w.avg as nat),
    ) + rjust(decimal(s.msgs as nat), w.msgs as nat) + gap() + name + seq!['\n']
}

/// The totals' line.
pub open spec fn footer_text(f: Format, w: Widths, msgs: u64, bytes: u64) -> Seq<char> {
    gap() + rjust(decimal(bytes as nat), w.bytes as nat) + gap() + avg_column(
        f,
        rjust(decimal(average(bytes, msgs)), w.avg as nat),
    ) + rjust(decimal(msgs as nat), w.msgs as nat) + gap() + seq!['\n']
}

/// The totals' line reads as a folder's line for the totals, without a
/// name, and its average is the byte total over the message total (0
/// when there is no message).
pub proof fn law_footer_average(f: Format, w: Widths, msgs: u64, bytes: u64)
    ensures
        footer_text(f, w, msgs, bytes) == row_text(f, w, gap(), Stats { msgs, bytes }, Seq::empty()),
        msgs > 0 ==> footer_text(Format::Long, w, msgs, bytes) == gap() + rjust(decimal(bytes as nat), w.bytes as nat)
            + gap() + rjust(decimal((bytes / msgs) as nat), w.avg as nat) + gap() + rjust(
            decimal(msgs as nat),
            w.msgs as nat,
        ) + gap() + seq!['\n'],
        msgs == 0 ==> footer_text(Format::Long, w, msgs, bytes) == gap() + rjust(decimal(bytes as nat), w.bytes as nat)
            + gap() + rjust(decimal(0), w.avg as nat) + gap() + rjust(decimal(msgs as nat), w.msgs as nat) + gap()
            + seq!['\n'],
{
    let e: Seq<char> = Seq::empty();
    assert(row_text(f, w, gap(), Stats { msgs, bytes }, e) =~= footer_text(f, w, msgs, bytes));
}

impl Format {
    fn push_avg(&self, v: &mut Vec<char>, n: u64, w: usize)
        ensures
            final(v)@ == old(v)@ + avg_column(*self, rjust(decimal(n as nat), w as nat)),
    {
        match self {
            Format::Long => {
                push_number(v, n, w);
                v.push(' ');
                v.push(' ');
                assert(v@ =~= old(v)@ + avg_column(*self, rjust(decimal(n as nat), w as nat)));
            },
            Format::Short => {
                assert(v@ =~= old(v)@ + avg_column(*self, rjust(decimal(n as nat), w as nat)));
            },
        }
    }

    /// Write the heading line.
    pub fn header(&self, out: &mut Vec<u8>, w: &Widths)
        ensures
            final(out)@ == old(out)@ + encode_utf8(header_text(*self, *w)),
    {
        let mut v: Vec<char> = Vec::new();
        v.push(' ');
        v.push(' ');
        push_rjust(&mut v, ['T', 'o', 't', 'a', 'l'].as_slice(), w.bytes);
        v.push(' ');
        v.push(' ');
        let ghost before = v@;
        match self {
            Format::Long => {
                push_rjust(&mut v, ['A', 'v', 'e', 'r', 'a', 'g', 'e'].as_slice(), w.avg);
                v.push(' ');
                v.push(' ');
            },
            Format::Short => {},
        }
        assert(v@ =~= before + avg_column(*self, rjust(seq!['A', 'v', 'e', 'r', 'a', 'g', 'e'], w.avg as nat)));
        push_rjust(&mut v, ['N', 'u', 'm', 'b', 'e', 'r'].as_slice(), w.msgs);
        push_chars(&mut v, [' ', ' ', 'F', 'o', 'l', 'd', 'e', 'r', '\n'].as_slice());
        assert(v@ =~= header_text(*self, *w));
        push_text(out, v.as_slice());
    }

    /// Write a line of dashes.
    pub fn sep(&self, out: &mut Vec<u8>, w: &Widths)
        ensures
            final(out)@ == old(out)@ + encode_utf8(sep_text(*self, *w)),
    {
        let mut v: Vec<char> = Vec::new();
        v.push(' ');
        v.push(' ');
        push_repeat(&mut v, '-', w.bytes);
        v.push(' ');
        v.push(' ');
        let ghost before = v@;
        match self {
            Format::Long => {
                push_repeat(&mut v, '-', w.avg);
                v.push(' ');
                v.push(' ');
            },
            Format::Short => {},
        }
        assert(v@ =~= before + avg_column(*self, repeat('-', w.avg as nat)));
        push_repeat(&mut v, '-', w.msgs);
        v.push(' ');
        v.push(' ');
        push_repeat(&mut v, '-', w.folder);
        v.push('\n');
        assert(v@ =~= sep_text(*self, *w));
        push_text(out, v.as_slice());
    }

    /// Write one folder's line.
    pub fn row(&self, out: &mut Vec<u8>, w: &Widths, prefix: &str, s: &Stats, name: &str)
        ensures
            final(out)@ == old(out)@ + encode_utf8(row_text(*self, *w, prefix@, *s, name@)),
    {
        let mut v = chars_of(prefix);
        push_number(&mut v, s.bytes, w.bytes);
        v.push(' ');
        v.push(' ');
        let avg = if s.msgs > 0 { s.bytes / s.msgs } else { 0 };
        self.push_avg(&mut v, avg, w.avg);
        push_number(&mut v, s.msgs, w.msgs);
        v.push(' ');
        v.push(' ');
        let nv = chars_of(name);
        push_chars(&mut v, nv.as_slice());
        v.push('\n');
        assert(v@ =~= row_text(*self, *w, prefix@, *s, name@));
        push_text(out, v.as_slice());
    }

    /// Write the totals' line.
    pub fn footer(&self, out: &mut Vec<u8>, w: &Widths, msgs: u64, bytes: u64)
        ensures
            final(out)@ == old(out)@ + encode_utf8(footer_text(*self, *w, msgs, bytes)),
    {
        let mut v: Vec<char> = Vec::new();
        v.push(' ');
        v.push(' ');
        push_number(&mut v, bytes, w.bytes);
        v.push(' ');
        v.push(' ');
        let avg = if msgs > 0 { bytes / msgs } else { 0 };
        self.push_avg(&mut v, avg, w.avg);
        push_number(&mut v, msgs, w.msgs);
        v.push(' ');
        v.push(' ');
        v.push('\n');
        assert(v@ =~= footer_text(*self, *w, msgs, bytes));
        push_text(out, v.as_slice());
    }
}

/// The lines of the first `k` folders.
pub open spec fn rows_text(f: Format, w: Widths, prefix: Seq<char>, es: Seq<(String, Stats)>, k: int) -> Seq<u8>
    decreases k,
{
    if k <= 0 {
        Seq::empty()
    } else {
        rows_text(f, w, prefix, es, k - 1) + encode_utf8(row_text(f, w, prefix, es[k - 1].1, es[k - 1].0@))
    }
}

/// The whole report: unless terse, an empty line, the heading and dashes;
/// a line per folder (indented unless terse); unless terse, dashes and
/// the totals.
pub open spec fn stats_text(es: Seq<(String, Stats)>, w: Widths, msgs: u64, bytes: u64, long: bool, terse: bool) -> Seq<u8> {
    let f = if long { Format::Long } else { Format::Short };
    let prefix = if terse { Seq::empty() } else { gap() };
    let top = if terse {
        Seq::empty()
    } else {
        seq![10u8] + encode_utf8(header_text(f, w)) + encode_utf8(sep_text(f, w))
    };
    let bottom = if terse {
        Seq::empty()
    } else {
        encode_utf8(sep_text(f, w)) + encode_utf8(footer_text(f, w, msgs, bytes))
    };
    top + rows_text(f, w, prefix, es, es.len() as int) + bottom
}

fn write_rows(out: &mut Vec<u8>, f: Format, w: &Widths, prefix: &str, es: &[(String, Stats)])
    ensures
        final(out)@ == old(out)@ + rows_text(f, *w, prefix@, es@, es@.len() as int),
{
    let mut k: usize = 0;
    while k < es.len()
        invariant
            k <= es@.len(),
            out@ == old(out)@ + rows_text(f, *w, prefix@, es@, k as int),
        decreases es@.len() - k,
    {
        let (name, st) = &es[k];
        let ghost before = out@;
        f.row(out, w, prefix, st, name.as_str());
        assert(out@ =~= old(out)@ + rows_text(f, *w, prefix@, es@, (k + 1) as int));
        k += 1;
    }
}

/// Write the report of `totals` to `out`.
pub fn write_stats(out: &mut Vec<u8>, totals: &Totals, msgs: u64, bytes: u64, long: bool, terse: bool)
    requires
        forall|i: int| 0 <= i < totals@.len() ==> 0 <= #[trigger] totals@[i].1.0 <= u64::MAX && 0 <= totals@[i].1.1 <= u64::MAX,
    ensures
        final(out)@ == old(out)@ + stats_text(totals.spec_entries(), widths_of(totals@, msgs, bytes), msgs, bytes, long, terse),
{
    let w = Widths::compute(totals, msgs, bytes);
    let f = if long { Format::Long } else { Format::Short };
    let ghost o0 = out@;
    if !terse {
        out.push(10u8);
        f.header(out, &w);
        f.sep(out, &w);
    }
    let ghost o1 = out@;
    let prefix = if terse { String::new() } else { string_from([' ', ' '].as_slice()) };
    assert(prefix@ =~= if terse { Seq::<char>::empty() } else { gap() });
    let es = totals.entries();
    write_rows(out, f, &w, prefix.as_str(), es);
    let ghost o2 = out@;
    if !terse {
        f.sep(out, &w);
        f.footer(out, &w, msgs, bytes);
    }
    proof {
        let top = if terse {
            Seq::<u8>::empty()
        } else {
            seq![10u8] + encode_utf8(header_text(f, w)) + encode_utf8(sep_text(f, w))
        };
        assert(o1 =~= o0 + top);
    }
    assert(out@ =~= old(out)@ + stats_text(es@, w, msgs, bytes, long, terse));
}

/// The messages and bytes of the first `k` folders, added up.
pub open spec fn sum_msgs(s: Seq<(Seq<char>, (int, int))>, k: int) -> int
    decreases k,
{
    if k <= 0 { 0 } else { sum_msgs(s, k - 1) + s[k - 1].1.0 }
}

pub open spec fn sum_bytes(s: Seq<(Seq<char>, (int, int))>, k: int) -> int
    decreases k,
{
    if k <= 0 { 0 } else { sum_bytes(s, k - 1) + s[k - 1].1.1 }
}

/// The messages and bytes of all folders; `None` when a sum passes
/// `u64::MAX`.
pub fn grand_totals(totals: &Totals) -> (r: Option<(u64, u64)>)
    requires
        forall|i: int| 0 <= i < totals@.len() ==> 0 <= #[trigger] totals@[i].1.0 <= u64::MAX && 0 <= totals@[i].1.1 <= u64::MAX,
    ensures
        match r {
            Some((m, b)) => m == sum_msgs(totals@, totals@.len() as int) && b == sum_bytes(totals@, totals@.len() as int),
            None => exists|k: int| 0 < k <= totals@.len() && (sum_msgs(totals@, k) > u64::MAX || sum_bytes(totals@, k) > u64::MAX),
        },
{
    let es = totals.entries();
    let mut m: u64 = 0;
    let mut b: u64 = 0;
    let mut k: usize = 0;
    while k < es.len()
        invariant
            k <= es@.len(),
            entries_view(es@) == totals@,
            forall|i: int| 0 <= i < totals@.len() ==> 0 <= #[trigger] totals@[i].1.0 <= u64::MAX && 0 <= totals@[i].1.1 <= u64::MAX,
            m == sum_msgs(totals@, k as int),
            b == sum_bytes(totals@, k as int),
        decreases es@.len() - k,
    {
        let st = es[k].1;
        assert(totals@[k as int].1 == stats_view(st));
        if st.msgs > u64::MAX - m || st.bytes > u64::MAX - b {
            assert(sum_msgs(totals@, k + 1) > u64::MAX || sum_bytes(totals@, k + 1) > u64::MAX);
            return None;
        }
        m = m + st.msgs;
        b = b + st.bytes;
        k += 1;
    }
    Some((m, b))
}

} // verus!
