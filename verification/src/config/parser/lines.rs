//! The lines of an rcfile, as `str::lines` yields them, the byte offset
//! at which the parser counts each to start, and the weight that the
//! parser's recursion spends.

use vstd::prelude::*;
use vstd::slice::{slice_subrange, slice_to_vec};
use vstd::utf8::encode_utf8;

use crate::text::{find_char_from, find_char_in, lemma_find_char_none, string_from};

verus! {

/// `t` without a final carriage return.
pub open spec fn chop_cr(t: Seq<char>) -> Seq<char> {
    if t.len() > 0 && t.last() == '\r' {
        t.drop_last()
    } else {
        t
    }
}

/// The lines of `s` from index `i` on: split at each newline, each
/// without a carriage return just before its newline; the text after the
/// last newline is a line when it is not empty.
pub open spec fn lines_from(s: Seq<char>, i: nat) -> Seq<Seq<char>>
    decreases s.len() - i,
{
    if i >= s.len() {
        Seq::empty()
    } else {
        match find_char_from(s, '\n', i) {
            None => seq![s.subrange(i as int, s.len() as int)],
            Some(j) => {
                proof {
                    lemma_find_char_none(s, '\n', i);
                }
                seq![chop_cr(s.subrange(i as int, j as int))] + lines_from(s, j + 1)
            },
        }
    }
}

/// The lines of `s` (`str::lines`).
pub open spec fn lines_of(s: Seq<char>) -> Seq<Seq<char>> {
    lines_from(s, 0)
}

/// The character sequences of a vector of lines.
pub open spec fn lines_view(v: Seq<Vec<char>>) -> Seq<Seq<char>> {
    v.map_values(|l: Vec<char>| l@)
}

/// Each line's UTF-8 length plus one for its end, summed.
pub open spec fn byte_total(ls: Seq<Seq<char>>) -> nat
    decreases ls.len(),
{
    if ls.len() == 0 {
        0
    } else {
        encode_utf8(ls[0]).len() + 1 + byte_total(ls.drop_first())
    }
}

/// The byte offset at which the parser counts line `k` to start: the
/// bytes of the lines before it, one more for each line's end.
pub open spec fn offset_at(ls: Seq<Seq<char>>, k: nat) -> nat {
    byte_total(ls.take(k as int))
}

/// Each line's length plus one, summed.
pub open spec fn char_total(ls: Seq<Seq<char>>) -> nat
    decreases ls.len(),
{
    if ls.len() == 0 {
        0
    } else {
        ls[0].len() + 1 + char_total(ls.drop_first())
    }
}

/// What is left to read from line `p` on, in characters and line ends.
pub open spec fn weight(ls: Seq<Seq<char>>, p: nat) -> nat {
    if p >= ls.len() {
        0
    } else {
        char_total(ls.skip(p as int))
    }
}

/// Reading goes on: `q` lies past `p`, and `p` is a line.
pub open spec fn progress(ls: Seq<Seq<char>>, p: nat, q: nat) -> bool {
    p < q && p < ls.len()
}

/// UTF-8 encoding distributes over concatenation.
pub proof fn lemma_encode_concat(a: Seq<char>, b: Seq<char>)
    ensures
        encode_utf8(a + b) == encode_utf8(a) + encode_utf8(b),
    decreases a.len(),
{
    if a.len() > 0 {
        assert((a + b).drop_first() =~= a.drop_first() + b);
        lemma_encode_concat(a.drop_first(), b);
        assert((a + b)[0] == a[0]);
        assert(encode_utf8(a + b) =~= encode_utf8(a) + encode_utf8(b));
    } else {
        assert(a + b =~= b);
        assert(encode_utf8(a) =~= Seq::<u8>::empty());
        assert(encode_utf8(a) + encode_utf8(b) =~= encode_utf8(b));
    }
}

/// A part of `s` takes no more bytes than `s`.
pub proof fn lemma_encode_subrange(s: Seq<char>, a: int, b: int)
    requires
        0 <= a <= b <= s.len(),
    ensures
        encode_utf8(s.subrange(a, b)).len() <= encode_utf8(s).len(),
        encode_utf8(s.take(a)).len() + encode_utf8(s.subrange(a, b)).len() <= encode_utf8(s).len(),
{
    assert(s =~= s.take(a) + s.subrange(a, b) + s.subrange(b, s.len() as int));
    lemma_encode_concat(s.take(a) + s.subrange(a, b), s.subrange(b, s.len() as int));
    lemma_encode_concat(s.take(a), s.subrange(a, b));
}

/// A newline takes one byte.
proof fn lemma_encode_newline()
    ensures
        encode_utf8(seq!['\n']).len() == 1,
{
    reveal_with_fuel(encode_utf8, 2);
    assert(seq!['\n'].drop_first() =~= Seq::<char>::empty());
}

/// `byte_total` of a line more.
pub proof fn lemma_byte_total_push(ls: Seq<Seq<char>>, x: Seq<char>)
    ensures
        byte_total(ls.push(x)) == byte_total(ls) + encode_utf8(x).len() + 1,
    decreases ls.len(),
{
    let t = ls.push(x);
    assert(byte_total(t) == encode_utf8(t[0]).len() + 1 + byte_total(t.drop_first()));
    if ls.len() > 0 {
        assert(t.drop_first() =~= ls.drop_first().push(x));
        lemma_byte_total_push(ls.drop_first(), x);
    } else {
        assert(t.drop_first() =~= Seq::<Seq<char>>::empty());
        assert(byte_total(t.drop_first()) == 0);
    }
}

/// The offset of the next line is this line's offset, its bytes and one.
pub proof fn lemma_offset_step(ls: Seq<Seq<char>>, k: nat)
    requires
        k < ls.len(),
    ensures
        offset_at(ls, k + 1) == offset_at(ls, k) + encode_utf8(ls[k as int]).len() + 1,
{
    assert(ls.take((k + 1) as int) =~= ls.take(k as int).push(ls[k as int]));
    lemma_byte_total_push(ls.take(k as int), ls[k as int]);
}

/// Offsets grow with the line index.
proof fn lemma_offset_le(ls: Seq<Seq<char>>, k: nat, m: nat)
    requires
        k <= m <= ls.len(),
    ensures
        offset_at(ls, k) <= offset_at(ls, m),
    decreases m - k,
{
    if k < m {
        lemma_offset_step(ls, (m - 1) as nat);
        lemma_offset_le(ls, k, (m - 1) as nat);
    }
}

/// Offsets grow with the line index, up to the total.
pub proof fn lemma_offset_mono(ls: Seq<Seq<char>>, k: nat, m: nat)
    requires
        k <= m <= ls.len(),
    ensures
        offset_at(ls, k) <= offset_at(ls, m),
        offset_at(ls, m) <= byte_total(ls),
{
    lemma_offset_le(ls, k, m);
    lemma_offset_le(ls, m, ls.len());
    assert(ls.take(ls.len() as int) =~= ls);
}

/// The lines of `s` from `i`, with their ends, take no more bytes than
/// `s` from `i` and one.
pub proof fn lemma_lines_bytes(s: Seq<char>, i: nat)
    requires
        i <= s.len(),
    ensures
        byte_total(lines_from(s, i)) <= encode_utf8(s.subrange(i as int, s.len() as int)).len() + 1,
        char_total(lines_from(s, i)) <= s.len() - i + 1,
    decreases s.len() - i,
{
    if i < s.len() {
        lemma_find_char_none(s, '\n', i);
        let ls = lines_from(s, i);
        match find_char_from(s, '\n', i) {
            None => {
                assert(ls == seq![s.subrange(i as int, s.len() as int)]);
                assert(ls.drop_first() =~= Seq::<Seq<char>>::empty());
                assert(byte_total(ls) == encode_utf8(ls[0]).len() + 1 + byte_total(ls.drop_first()));
                assert(char_total(ls) == ls[0].len() + 1 + char_total(ls.drop_first()));
            },
            Some(j) => {
                let t = s.subrange(i as int, j as int);
                lemma_lines_bytes(s, j + 1);
                assert(ls == seq![chop_cr(t)] + lines_from(s, j + 1));
                assert(ls.drop_first() =~= lines_from(s, j + 1));
                assert(ls[0] == chop_cr(t));
                assert(byte_total(ls) == encode_utf8(ls[0]).len() + 1 + byte_total(ls.drop_first()));
                assert(char_total(ls) == ls[0].len() + 1 + char_total(ls.drop_first()));
                if t.len() > 0 && t.last() == '\r' {
                    assert(t =~= t.drop_last() + seq![t.last()]);
                    lemma_encode_concat(t.drop_last(), seq![t.last()]);
                }
                assert(s.subrange(i as int, s.len() as int) =~= t + seq!['\n'] + s.subrange(
                    (j + 1) as int,
                    s.len() as int,
                ));
                lemma_encode_concat(t + seq!['\n'], s.subrange((j + 1) as int, s.len() as int));
                lemma_encode_concat(t, seq!['\n']);
                lemma_encode_newline();
            },
        }
    } else {
        assert(s.subrange(i as int, s.len() as int) =~= Seq::<char>::empty());
    }
}

/// Each character takes at least one byte.
pub proof fn lemma_encode_len(s: Seq<char>)
    ensures
        s.len() <= encode_utf8(s).len(),
    decreases s.len(),
{
    if s.len() > 0 {
        lemma_encode_len(s.drop_first());
    }
}

/// There are no more lines than characters.
pub proof fn lemma_lines_count(s: Seq<char>, i: nat)
    requires
        i <= s.len(),
    ensures
        lines_from(s, i).len() <= s.len() - i,
    decreases s.len() - i,
{
    if i < s.len() {
        lemma_find_char_none(s, '\n', i);
        if let Some(j) = find_char_from(s, '\n', i) {
            lemma_lines_count(s, j + 1);
        }
    }
}

/// The weight from line `p` is that line and the weight after it.
pub proof fn lemma_weight_step(ls: Seq<Seq<char>>, p: nat)
    requires
        p < ls.len(),
    ensures
        weight(ls, p) == ls[p as int].len() + 1 + weight(ls, p + 1),
{
    let t = ls.skip(p as int);
    assert(t.drop_first() =~= ls.skip((p + 1) as int));
    assert(t[0] == ls[p as int]);
    assert(char_total(t) == t[0].len() + 1 + char_total(t.drop_first()));
    if p + 1 == ls.len() {
        assert(ls.skip((p + 1) as int) =~= Seq::<Seq<char>>::empty());
    }
}

/// The weight does not grow as reading goes on.
pub proof fn lemma_weight_mono(ls: Seq<Seq<char>>, p: nat, q: nat)
    requires
        p <= q,
    ensures
        weight(ls, q) <= weight(ls, p),
    decreases q - p,
{
    if p < q && p < ls.len() {
        lemma_weight_step(ls, p);
        lemma_weight_mono(ls, p + 1, q);
    }
}

/// Progress spends weight.
pub proof fn lemma_progress(ls: Seq<Seq<char>>, p: nat, q: nat)
    requires
        progress(ls, p, q),
    ensures
        weight(ls, q) < weight(ls, p),
{
    lemma_weight_step(ls, p);
    lemma_weight_mono(ls, p + 1, q);
}

/// The weight of all lines of `s` is at most its length and one.
pub proof fn lemma_lines_weight(s: Seq<char>)
    ensures
        weight(lines_of(s), 0) <= s.len() + 1,
{
    lemma_lines_bytes(s, 0);
    let ls = lines_of(s);
    if ls.len() > 0 {
        assert(ls.skip(0) =~= ls);
    }
}

/// The lines of `v` (`str::lines`).
pub fn split_lines(v: &[char]) -> (r: Vec<Vec<char>>)
    ensures
        lines_view(r@) == lines_of(v@),
{
    let mut r: Vec<Vec<char>> = Vec::new();
    let mut i: usize = 0;
    while i < v.len()
        invariant
            i <= v@.len(),
            lines_view(r@) + lines_from(v@, i as nat) == lines_of(v@),
        decreases v@.len() - i,
    {
        let ghost before = lines_view(r@);
        match find_char_in(v, '\n', i) {
            Some(j) => {
                let e = if j > i && v[j - 1] == '\r' {
                    j - 1
                } else {
                    j
                };
                let piece = slice_subrange(v, i, e);
                assert(piece@ =~= chop_cr(v@.subrange(i as int, j as int)));
                r.push(slice_to_vec(piece));
                assert(lines_view(r@) =~= before.push(chop_cr(v@.subrange(i as int, j as int))));
                assert(lines_from(v@, i as nat) =~= seq![chop_cr(v@.subrange(i as int, j as int))]
                    + lines_from(v@, (j + 1) as nat));
                assert(before + lines_from(v@, i as nat) =~= lines_view(r@) + lines_from(
                    v@,
                    (j + 1) as nat,
                ));
                i = j + 1;
            },
            None => {
                r.push(slice_to_vec(slice_subrange(v, i, v.len())));
                assert(lines_view(r@) =~= before + lines_from(v@, i as nat));
                i = v.len();
                assert(lines_from(v@, i as nat) =~= Seq::<Seq<char>>::empty());
                assert(lines_view(r@) + lines_from(v@, i as nat) =~= lines_view(r@));
            },
        }
    }
    assert(lines_from(v@, i as nat) =~= Seq::<Seq<char>>::empty());
    assert(lines_view(r@) + lines_from(v@, i as nat) =~= lines_view(r@));
    r
}

/// The number of bytes that `v` takes in UTF-8.
pub fn utf8_len(v: &[char]) -> (n: usize)
    ensures
        n == encode_utf8(v@).len(),
{
    let s = string_from(v);
    s.as_str().as_bytes().len()
}

} // verus!
