//! Which address a message came from, or is to be answered at: the
//! sender fields weighed as procmail's `getsender` weighs them.

use vstd::prelude::*;
use vstd::slice::slice_subrange;
use vstd::utf8::{decode_utf8, encode_utf8, valid_utf8};

use super::address::{address, address_of, addr_penalty, extract_address, has_address, penalty_of};
use crate::config::{words, words_in};
use crate::field::{model_is_from_line, model_matches, model_value, FieldList, FieldModel};
use crate::text::{
    chars_of, contains_char, find_char_from, find_char_in, find_str_from, find_str_in, occurs_at,
    occurs_at_exec, str_from_utf8, string_from,
};

verus! {

/// How the sender fields are weighed.
#[derive(Clone, Copy, Debug, PartialEq, Eq, Structural)]
pub enum SenderMode {
    /// The envelope sender: the table's order.
    Envelope,
    /// Who a reply goes to.
    Reply,
    /// Who a reply goes to, resent fields first.
    ResentReply,
}

/// The names of the sender fields, in the table's order; the eleventh
/// entry is the `From ` envelope line, which no name matches.
pub open spec fn sest_name(i: int) -> Seq<u8> {
    if i == 0 {
        seq![82u8, 101u8, 112u8, 108u8, 121u8, 45u8, 84u8, 111u8, 58u8]
    } else if i == 1 {
        seq![70u8, 114u8, 111u8, 109u8, 58u8]
    } else if i == 2 {
        seq![83u8, 101u8, 110u8, 100u8, 101u8, 114u8, 58u8]
    } else if i == 3 {
        seq![82u8, 101u8, 115u8, 101u8, 110u8, 116u8, 45u8, 82u8, 101u8, 112u8, 108u8, 121u8, 45u8, 84u8, 111u8, 58u8]
    } else if i == 4 {
        seq![82u8, 101u8, 115u8, 101u8, 110u8, 116u8, 45u8, 70u8, 114u8, 111u8, 109u8, 58u8]
    } else if i == 5 {
        seq![82u8, 101u8, 115u8, 101u8, 110u8, 116u8, 45u8, 83u8, 101u8, 110u8, 100u8, 101u8, 114u8, 58u8]
    } else if i == 6 {
        seq![80u8, 97u8, 116u8, 104u8, 58u8]
    } else if i == 7 {
        seq![82u8, 101u8, 116u8, 117u8, 114u8, 110u8, 45u8, 82u8, 101u8, 99u8, 101u8, 105u8, 112u8, 116u8, 45u8, 84u8, 111u8, 58u8]
    } else if i == 8 {
        seq![69u8, 114u8, 114u8, 111u8, 114u8, 115u8, 45u8, 84u8, 111u8, 58u8]
    } else if i == 9 {
        seq![82u8, 101u8, 116u8, 117u8, 114u8, 110u8, 45u8, 80u8, 97u8, 116u8, 104u8, 58u8]
    } else {
        seq![70u8, 114u8, 111u8, 109u8, 32u8]
    }
}

/// The name of sender field `i` (`i < 10`).
fn sest_name_bytes(i: usize) -> (r: Vec<u8>)
    requires
        i < 10,
    ensures
        r@ == sest_name(i as int),
{
    match i {
        0 => vec![82u8, 101, 112, 108, 121, 45, 84, 111, 58],
        1 => vec![70u8, 114, 111, 109, 58],
        2 => vec![83u8, 101, 110, 100, 101, 114, 58],
        3 => vec![82u8, 101, 115, 101, 110, 116, 45, 82, 101, 112, 108, 121, 45, 84, 111, 58],
        4 => vec![82u8, 101, 115, 101, 110, 116, 45, 70, 114, 111, 109, 58],
        5 => vec![82u8, 101, 115, 101, 110, 116, 45, 83, 101, 110, 100, 101, 114, 58],
        6 => vec![80u8, 97, 116, 104, 58],
        7 => vec![82u8, 101, 116, 117, 114, 110, 45, 82, 101, 99, 101, 105, 112, 116, 45, 84, 111, 58],
        8 => vec![69u8, 114, 114, 111, 114, 115, 45, 84, 111, 58],
        9 => vec![82u8, 101, 116, 117, 114, 110, 45, 80, 97, 116, 104, 58],
        _ => vec![82u8, 101, 116, 117, 114, 110, 45, 80, 97, 116, 104, 58],
    }
}

/// The weight of sender field `i` (0 to 10) in a mode: for the envelope
/// its place in the table; for replies and resent replies procmail's
/// `wrepl` and `wrrepl` columns.
pub open spec fn mode_weight(mode: SenderMode, i: int) -> int {
    match mode {
        SenderMode::Envelope => i,
        SenderMode::Reply => if i == 0 { 8 } else if i == 1 { 7 } else if i == 2 { 6 } else if i == 6 { 1 } else if i == 7 { 2 } else if i == 8 { 3 } else if i == 9 { 5 } else if i == 10 { 4 } else { 0 },
        SenderMode::ResentReply => if i == 0 { 7 } else if i == 1 { 6 } else if i == 2 { 5 } else if i == 3 { 10 } else if i == 4 { 9 } else if i == 5 { 8 } else if i == 7 { 1 } else if i == 8 { 2 } else if i == 9 { 4 } else if i == 10 { 3 } else { 0 },
    }
}

fn weight_of(mode: SenderMode, i: usize) -> (r: i32)
    requires
        i <= 10,
    ensures
        r == mode_weight(mode, i as int),
{
    match mode {
        SenderMode::Envelope => i as i32,
        SenderMode::Reply => match i {
            0 => 8,
            1 => 7,
            2 => 6,
            6 => 1,
            7 => 2,
            8 => 3,
            9 => 5,
            10 => 4,
            _ => 0,
        },
        SenderMode::ResentReply => match i {
            0 => 7,
            1 => 6,
            2 => 5,
            3 => 10,
            4 => 9,
            5 => 8,
            7 => 1,
            8 => 2,
            9 => 4,
            10 => 3,
            _ => 0,
        },
    }
}

/// The first sender field name from `i` on (below 10) that `f` matches.
pub open spec fn sest_match_from(f: FieldModel, i: int) -> Option<int>
    decreases 10 - i,
{
    if i >= 10 || i < 0 {
        None
    } else if model_matches(f, sest_name(i)) {
        Some(i)
    } else {
        sest_match_from(f, i + 1)
    }
}

/// The sender field that `f` is, if any: the envelope line is the last
/// entry; any other field is the first entry whose name it matches.
pub open spec fn sest_index(f: FieldModel) -> Option<int> {
    if model_is_from_line(f) {
        Some(10)
    } else {
        sest_match_from(f, 0)
    }
}

/// `s` begins with the characters `p`.
pub open spec fn starts_with_chars(s: Seq<char>, p: Seq<char>) -> bool {
    occurs_at(s, p, 0)
}

/// `From `.
pub open spec fn from_chars() -> Seq<char> {
    seq!['F', 'r', 'o', 'm', ' ']
}

/// `>From `.
pub open spec fn quoted_from_chars() -> Seq<char> {
    seq!['>', 'F', 'r', 'o', 'm', ' ']
}

/// End of the line that starts at `i`: the next newline or the end.
pub open spec fn seg_end(s: Seq<char>, i: nat) -> nat {
    match find_char_from(s, '\n', i) {
        Some(e) => e,
        None => s.len(),
    }
}

/// The last of the newline-separated lines of `s` from `i` on that
/// starts with `From ` or `>From `, or `cur` if none does.
pub open spec fn last_from_line(s: Seq<char>, i: nat, cur: Seq<char>) -> Seq<char>
    decreases s.len() + 1 - i,
{
    if i > s.len() {
        cur
    } else {
        proof {
            lemma_find_char_from_range(s, '\n', i);
        }
        let e = seg_end(s, i);
        let seg = s.subrange(i as int, e as int);
        let cur2 = if starts_with_chars(seg, from_chars()) || starts_with_chars(seg, quoted_from_chars()) {
            seg
        } else {
            cur
        };
        if e >= s.len() {
            cur2
        } else {
            last_from_line(s, e + 1, cur2)
        }
    }
}

/// ` remote from `.
pub open spec fn remote_from() -> Seq<char> {
    seq![' ', 'r', 'e', 'm', 'o', 't', 'e', ' ', 'f', 'r', 'o', 'm', ' ']
}

/// ` forwarded by `.
pub open spec fn forwarded_by() -> Seq<char> {
    seq![' ', 'f', 'o', 'r', 'w', 'a', 'r', 'd', 'e', 'd', ' ', 'b', 'y', ' ']
}

/// The characters of `s` before its first newline or NUL.
pub open spec fn upto_line_end(s: Seq<char>) -> Seq<char>
    decreases s.len(),
{
    if s.len() == 0 || s[0] == '\n' || s[0] == '\0' {
        Seq::empty()
    } else {
        seq![s[0]] + upto_line_end(s.drop_first())
    }
}

/// Each byte taken for the character with its code.
pub open spec fn latin1(b: Seq<u8>) -> Seq<char> {
    b.map_values(|x: u8| x as char)
}

/// The next relay marker at or after `o`: its index and its length, the
/// earlier of ` remote from ` and ` forwarded by `.
pub open spec fn next_hop(s: Seq<char>, o: nat) -> Option<(nat, nat)> {
    match (find_str_from(s, remote_from(), o), find_str_from(s, forwarded_by(), o)) {
        (Some(a), Some(b)) => if b < a { Some((b, 14nat)) } else { Some((a, 13nat)) },
        (Some(a), None) => Some((a, 13nat)),
        (None, Some(b)) => Some((b, 14nat)),
        (None, None) => None,
    }
}

/// The UUCP bang path that the relay markers of `s` from `o` on spell:
/// for each marker, the rest of its line (its UTF-8 bytes, each as a
/// character) and a `!`; the search goes on from the newline after it.
pub open spec fn hops(s: Seq<char>, o: nat) -> Seq<char>
    decreases s.len() + 1 - o,
{
    match next_hop(s, o) {
        None => Seq::empty(),
        Some((pos, skip)) => {
            proof {
                lemma_find_char_from_range(s, '\n', pos + skip);
            }
            if pos + skip > s.len() || pos < o {
                Seq::empty()
            } else {
                let hop = s.skip((pos + skip) as int);
                let here = latin1(encode_utf8(upto_line_end(hop))) + seq!['!'];
                match find_char_from(s, '\n', pos + skip) {
                    Some(nl) => here + hops(s, nl),
                    None => here,
                }
            }
        },
    }
}

/// The address of a `From_` line and its penalty: 2 when the line runs
/// over several lines (UUCP `>From` lines); the first word after `From `
/// or `>From ` of the last such line; a user without `@` gets the bang
/// path of the relay markers put before it.
pub open spec fn from_line_addr_of(raw: Seq<char>) -> (Seq<char>, int) {
    let pen: int = if raw.contains('\n') { 2 } else { 0 };
    let line = last_from_line(raw, 0, raw);
    let rest = if starts_with_chars(line, quoted_from_chars()) {
        line.skip(6)
    } else if starts_with_chars(line, from_chars()) {
        line.skip(5)
    } else {
        line
    };
    let ws = words(rest);
    let user = if ws.len() > 0 { ws[0] } else { Seq::empty() };
    if user.len() == 0 {
        (Seq::empty(), pen)
    } else if user.contains('@') {
        (user, pen)
    } else {
        (hops(raw, 0) + user, pen)
    }
}

pub proof fn lemma_find_char_from_range(s: Seq<char>, c: char, i: nat)
    ensures
        find_char_from(s, c, i) matches Some(k) ==> i <= k < s.len() && s[k as int] == c,
    decreases s.len() - i,
{
    if i < s.len() && s[i as int] != c {
        lemma_find_char_from_range(s, c, i + 1);
    }
}

pub proof fn lemma_find_str_from_range(s: Seq<char>, p: Seq<char>, i: nat)
    ensures
        find_str_from(s, p, i) matches Some(k) ==> i <= k && occurs_at(s, p, k as int),
    decreases s.len() + 1 - i,
{
    if i <= s.len() && !occurs_at(s, p, i as int) {
        lemma_find_str_from_range(s, p, i + 1);
    }
}

/// End of the line of `v` that starts at `i`.
fn seg_end_exec(v: &[char], i: usize) -> (e: usize)
    requires
        i <= v@.len(),
    ensures
        e == seg_end(v@, i as nat),
        i <= e <= v@.len(),
{
    proof {
        lemma_find_char_from_range(v@, '\n', i as nat);
    }
    match find_char_in(v, '\n', i) {
        Some(e) => e,
        None => v.len(),
    }
}

/// The characters of `upto_line_end(v@.skip(i))`, as a vector.
fn line_rest(v: &[char], i: usize) -> (r: Vec<char>)
    requires
        i <= v@.len(),
    ensures
        r@ == upto_line_end(v@.skip(i as int)),
{
    let mut r: Vec<char> = Vec::new();
    let mut k = i;
    while k < v.len() && v[k] != '\n' && v[k] != '\0'
        invariant
            i <= k <= v@.len(),
            r@ + upto_line_end(v@.skip(k as int)) == upto_line_end(v@.skip(i as int)),
        decreases v@.len() - k,
    {
        assert(v@.skip(k as int).drop_first() =~= v@.skip(k + 1));
        r.push(v[k]);
        k += 1;
    }
    assert(upto_line_end(v@.skip(k as int)) =~= Seq::<char>::empty());
    r
}

/// Each UTF-8 byte of the characters `c`, taken for a character.
fn latin1_of(c: &[char]) -> (r: Vec<char>)
    ensures
        r@ == latin1(encode_utf8(c@)),
{
    let s = string_from(c);
    let b = s.as_str().as_bytes();
    let mut r: Vec<char> = Vec::new();
    let mut j: usize = 0;
    while j < b.len()
        invariant
            b@ == encode_utf8(c@),
            j <= b@.len(),
            r@ == latin1(b@.take(j as int)),
        decreases b@.len() - j,
    {
        let x = b[j];
        r.push(x as char);
        assert(r@ =~= latin1(b@.take(j + 1)));
        j += 1;
    }
    assert(b@.take(j as int) =~= b@);
    r
}

/// The bang path of the relay markers of `v` from `o` on.
fn hops_of(v: &[char], o: usize) -> (r: Vec<char>)
    requires
        o <= v@.len(),
    ensures
        r@ == hops(v@, o as nat),
{
    let rf: [char; 13] = [' ', 'r', 'e', 'm', 'o', 't', 'e', ' ', 'f', 'r', 'o', 'm', ' '];
    let fb: [char; 14] = [' ', 'f', 'o', 'r', 'w', 'a', 'r', 'd', 'e', 'd', ' ', 'b', 'y', ' '];
    assert(rf@ =~= remote_from());
    assert(fb@ =~= forwarded_by());
    let mut path: Vec<char> = Vec::new();
    let mut at = o;
    let n = v.len();
    loop
        invariant
            n == v@.len(),
            at <= v@.len(),
            rf@ == remote_from(),
            fb@ == forwarded_by(),
            path@ + hops(v@, at as nat) == hops(v@, o as nat),
        decreases v@.len() - at,
    {
        proof {
            lemma_find_str_from_range(v@, remote_from(), at as nat);
            lemma_find_str_from_range(v@, forwarded_by(), at as nat);
        }
        let a = find_str_in(v, rf.as_slice(), at);
        let b = find_str_in(v, fb.as_slice(), at);
        let (pos, skip): (usize, usize) = match (a, b) {
            (Some(x), Some(y)) => if y < x { (y, 14) } else { (x, 13) },
            (Some(x), None) => (x, 13),
            (None, Some(y)) => (y, 14),
            (None, None) => {
                assert(hops(v@, at as nat) == Seq::<char>::empty());
                assert(path@ =~= hops(v@, o as nat));
                return path;
            },
        };
        assert(next_hop(v@, at as nat) == Some((pos as nat, skip as nat)));
        assert(pos + skip <= v@.len());
        let start = pos + skip;
        let line = line_rest(v, start);
        let mut bytes = latin1_of(line.as_slice());
        path.append(&mut bytes);
        path.push('!');
        proof {
            lemma_find_char_from_range(v@, '\n', start as nat);
        }
        let ghost here = latin1(encode_utf8(upto_line_end(v@.skip(start as int)))) + seq!['!'];
        match find_char_in(v, '\n', start) {
            Some(nl) => {
                assert(hops(v@, at as nat) == here + hops(v@, nl as nat));
                assert(path@ + hops(v@, nl as nat) =~= hops(v@, o as nat));
                at = nl;
            },
            None => {
                assert(hops(v@, at as nat) == here);
                assert(path@ =~= hops(v@, o as nat));
                return path;
            },
        }
    }
}

/// The characters `p` at index `i` of `v`.
fn occurs_exec(v: &[char], p: &[char], i: usize) -> (b: bool)
    ensures
        b == occurs_at(v@, p@, i as int),
{
    occurs_at_exec(v, p, i)
}

/// Extract address from a From_ line with UUCP bang-path reconstruction.
pub fn from_line_addr(raw: &str) -> (r: (String, i32))
    ensures
        (r.0@, r.1 as int) == from_line_addr_of(raw@),
{
    let v = chars_of(raw);
    let pen: i32 = if contains_char(v.as_slice(), '\n') { 2 } else { 0 };
    let fromc: [char; 5] = ['F', 'r', 'o', 'm', ' '];
    let qfromc: [char; 6] = ['>', 'F', 'r', 'o', 'm', ' '];
    assert(fromc@ =~= from_chars());
    assert(qfromc@ =~= quoted_from_chars());
    let n = v.len();
    let mut cur_a: usize = 0;
    let mut cur_b: usize = n;
    let mut i: usize = 0;
    assert(v@.subrange(0, n as int) =~= v@);
    loop
        invariant
            n == v@.len(),
            i <= n,
            cur_a <= cur_b <= n,
            fromc@ == from_chars(),
            qfromc@ == quoted_from_chars(),
            last_from_line(v@, 0, v@) == last_from_line(v@, i as nat, v@.subrange(cur_a as int, cur_b as int)),
        ensures
            cur_a <= cur_b <= n,
            last_from_line(v@, 0, v@) == v@.subrange(cur_a as int, cur_b as int),
        decreases n - i,
    {
        let ghost cur0 = v@.subrange(cur_a as int, cur_b as int);
        let e = seg_end_exec(v.as_slice(), i);
        let seg = slice_subrange(v.as_slice(), i, e);
        if occurs_exec(seg, fromc.as_slice(), 0) || occurs_exec(seg, qfromc.as_slice(), 0) {
            cur_a = i;
            cur_b = e;
        }
        assert(seg@ =~= v@.subrange(i as int, e as int));
        if e >= n {
            assert(last_from_line(v@, i as nat, cur0) == v@.subrange(cur_a as int, cur_b as int));
            break;
        }
        assert(last_from_line(v@, i as nat, cur0) == last_from_line(v@, (e + 1) as nat, v@.subrange(cur_a as int, cur_b as int)));
        i = e + 1;
    }
    let line = slice_subrange(v.as_slice(), cur_a, cur_b);
    assert(line@ == last_from_line(v@, 0, v@));
    let rest = if occurs_exec(line, qfromc.as_slice(), 0) {
        slice_subrange(line, 6, line.len())
    } else if occurs_exec(line, fromc.as_slice(), 0) {
        slice_subrange(line, 5, line.len())
    } else {
        line
    };
    let ws = words_in(rest, 0);
    assert(rest@ =~= (if starts_with_chars(line@, quoted_from_chars()) {
        line@.skip(6)
    } else if starts_with_chars(line@, from_chars()) {
        line@.skip(5)
    } else {
        line@
    }));
    if ws.len() == 0 {
        let e = String::new();
        assert(e@ =~= Seq::<char>::empty());
        return (e, pen);
    }
    let user = ws[0].clone();
    let uv = chars_of(user.as_str());
    if uv.len() == 0 {
        let e = String::new();
        assert(e@ =~= Seq::<char>::empty());
        return (e, pen);
    }
    if contains_char(uv.as_slice(), '@') {
        return (user, pen);
    }
    let mut path = hops_of(v.as_slice(), 0);
    let ghost hp = path@;
    let mut uvm = uv;
    path.append(&mut uvm);
    assert(path@ =~= hp + user@);
    (string_from(path.as_slice()), pen)
}

/// One sender field weighed against the best so far: field `k` of the
/// header (an envelope line counts only as the first field), whose value
/// must be UTF-8; an empty `Return-Path:` address stands for `<>` with
/// weight 12; any other address counts with its weight less its penalty,
/// and wins only when it weighs more than the best so far.
pub open spec fn sender_step(best: (Option<Seq<char>>, int), f: FieldModel, k: int, mode: SenderMode) -> (
    Option<Seq<char>>,
    int,
) {
    match sest_index(f) {
        None => best,
        Some(idx) => {
            let is_from = model_is_from_line(f);
            if is_from && k != 0 {
                best
            } else if !valid_utf8(model_value(f)) {
                best
            } else {
                let s = decode_utf8(model_value(f));
                let aw: (Seq<char>, int) = if is_from {
                    let ap = from_line_addr_of(s);
                    (ap.0, mode_weight(mode, idx) - ap.1)
                } else {
                    (address_of(s).unwrap(), mode_weight(mode, idx))
                };
                if aw.0.len() == 0 {
                    if idx == 9 && 12 > best.1 {
                        (Some(seq!['<', '>']), 12)
                    } else {
                        best
                    }
                } else {
                    let w2 = aw.1 - penalty_of(aw.0);
                    if w2 > best.1 {
                        (Some(aw.0), w2)
                    } else {
                        best
                    }
                }
            }
        },
    }
}

/// The best sender among the first `n` fields, and its weight.
pub open spec fn sender_fold(fs: Seq<FieldModel>, n: int, mode: SenderMode) -> (Option<Seq<char>>, int)
    decreases n,
{
    if n <= 0 {
        (None, i32::MIN as int)
    } else {
        sender_step(sender_fold(fs, n - 1, mode), fs[n - 1], n - 1, mode)
    }
}

/// The sender that a header names, weighed in `mode`.
pub open spec fn sender_of(fs: Seq<FieldModel>, mode: SenderMode) -> Option<Seq<char>> {
    sender_fold(fs, fs.len() as int, mode).0
}

/// Every sender field other than the envelope line whose value is UTF-8
/// names an address that can be cut out of it.
pub open spec fn senders_readable(fs: Seq<FieldModel>) -> bool {
    forall|k: int|
        0 <= k < fs.len() && !model_is_from_line(#[trigger] fs[k]) && sest_match_from(fs[k], 0) is Some
            && valid_utf8(model_value(fs[k])) ==> has_address(decode_utf8(model_value(fs[k])))
}

/// The first sender field name (below 10) that `f` matches.
fn sest_match(f: &crate::field::Field) -> (r: Option<usize>)
    requires
        f.wf(),
    ensures
        match r {
            Some(i) => sest_match_from(f@, 0) == Some(i as int) && i < 10,
            None => sest_match_from(f@, 0) is None,
        },
{
    let mut j: usize = 0;
    while j < 10
        invariant
            j <= 10,
            f.wf(),
            sest_match_from(f@, 0) == sest_match_from(f@, j as int),
        decreases 10 - j,
    {
        let name = sest_name_bytes(j);
        if f.name_matches(name.as_slice()) {
            return Some(j);
        }
        j += 1;
    }
    None
}

/// Unified sender detection matching procmail's getsender(): the
/// address of the sender field that weighs most in `mode`.
pub fn get_sender(fields: &FieldList, mode: SenderMode) -> (r: Option<String>)
    requires
        fields.wf(),
        senders_readable(fields@),
    ensures
        match r {
            Some(a) => sender_of(fields@, mode) == Some(a@),
            None => sender_of(fields@, mode) is None,
        },
{
    let n = fields.len();
    let mut best: Option<String> = None;
    let mut best_w: i32 = i32::MIN;
    let mut k: usize = 0;
    while k < n
        invariant
            fields.wf(),
            senders_readable(fields@),
            n == fields@.len(),
            k <= n,
            sender_fold(fields@, k as int, mode) == (
                match best {
                    Some(a) => Some(a@),
                    None => None,
                },
                best_w as int,
            ),
        decreases n - k,
    {
        let f = fields.get(k);
        assert(f.wf());
        let is_from = f.is_from_line();
        let found = if is_from {
            Some(10usize)
        } else {
            sest_match(f)
        };
        match found {
            None => {},
            Some(idx) => {
                if is_from && k != 0 {
                } else {
                    match str_from_utf8(f.value()) {
                        None => {},
                        Some(s) => {
                            let (addr, w): (String, i32) = if is_from {
                                let (a, p) = from_line_addr(s);
                                (a, weight_of(mode, idx) - p)
                            } else {
                                assert(has_address(s@));
                                (extract_address(s), weight_of(mode, idx))
                            };
                            let av = chars_of(addr.as_str());
                            if av.len() == 0 {
                                if idx == 9 && 12 > best_w {
                                    best_w = 12;
                                    let lg = string_from(['<', '>'].as_slice());
                                    assert(lg@ =~= seq!['<', '>']);
                                    best = Some(lg);
                                }
                            } else {
                                let w2 = w - addr_penalty(addr.as_str());
                                if w2 > best_w {
                                    best_w = w2;
                                    best = Some(addr);
                                }
                            }
                        },
                    }
                }
            },
        }
        k += 1;
    }
    best
}

/// Whether the sender fields of a header can all be read: whether
/// `get_sender` may be called on it.
pub fn senders_ok(fields: &FieldList) -> (b: bool)
    requires
        fields.wf(),
    ensures
        b == senders_readable(fields@),
{
    let n = fields.len();
    let mut k: usize = 0;
    while k < n
        invariant
            fields.wf(),
            n == fields@.len(),
            k <= n,
            forall|j: int|
                0 <= j < k && !model_is_from_line(#[trigger] fields@[j]) && sest_match_from(fields@[j], 0) is Some
                    && valid_utf8(model_value(fields@[j])) ==> has_address(decode_utf8(model_value(fields@[j]))),
        decreases n - k,
    {
        let f = fields.get(k);
        assert(f.wf());
        if !f.is_from_line() {
            if sest_match(f).is_some() {
                match str_from_utf8(f.value()) {
                    Some(s) => {
                        if address(s).is_none() {
                            return false;
                        }
                    },
                    None => {},
                }
            }
        }
        k += 1;
    }
    true
}

/// The address a reply goes to: the sender weighed for a reply when the
/// header is trusted, else the envelope sender.
pub fn find_reply_address(args: &super::headers::Args, fields: &FieldList) -> (r: Option<String>)
    requires
        fields.wf(),
        senders_readable(fields@),
    ensures
        match r {
            Some(a) => sender_of(fields@, if args.trust { SenderMode::Reply } else { SenderMode::Envelope }) == Some(a@),
            None => sender_of(fields@, if args.trust { SenderMode::Reply } else { SenderMode::Envelope }) is None,
        },
{
    let mode = if args.trust { SenderMode::Reply } else { SenderMode::Envelope };
    get_sender(fields, mode)
}


/// Replies go to the best of the sender fields in this order: `Reply-To:`,
/// `From:`, `Sender:`, `Return-Path:`, the `From ` envelope line,
/// `Errors-To:`, `Return-Receipt-To:`, `Path:` (the resent fields count
/// for nothing); with resent fields first, `Resent-Reply-To:`,
/// `Resent-From:`, `Resent-Sender:`, then `Reply-To:`, `From:`,
/// `Sender:`, `Return-Path:`, the envelope line, `Errors-To:`,
/// `Return-Receipt-To:` (`Path:` counts for nothing).
pub proof fn law_reply_sender_order()
    ensures
        sest_name(0) == seq![82u8, 101u8, 112u8, 108u8, 121u8, 45u8, 84u8, 111u8, 58u8],
        sest_name(1) == seq![70u8, 114u8, 111u8, 109u8, 58u8],
        sest_name(2) == seq![83u8, 101u8, 110u8, 100u8, 101u8, 114u8, 58u8],
        sest_name(3) == seq![82u8, 101u8, 115u8, 101u8, 110u8, 116u8, 45u8, 82u8, 101u8, 112u8, 108u8, 121u8, 45u8, 84u8, 111u8, 58u8],
        sest_name(4) == seq![82u8, 101u8, 115u8, 101u8, 110u8, 116u8, 45u8, 70u8, 114u8, 111u8, 109u8, 58u8],
        sest_name(5) == seq![82u8, 101u8, 115u8, 101u8, 110u8, 116u8, 45u8, 83u8, 101u8, 110u8, 100u8, 101u8, 114u8, 58u8],
        sest_name(6) == seq![80u8, 97u8, 116u8, 104u8, 58u8],
        sest_name(7) == seq![82u8, 101u8, 116u8, 117u8, 114u8, 110u8, 45u8, 82u8, 101u8, 99u8, 101u8, 105u8, 112u8, 116u8, 45u8, 84u8, 111u8, 58u8],
        sest_name(8) == seq![69u8, 114u8, 114u8, 111u8, 114u8, 115u8, 45u8, 84u8, 111u8, 58u8],
        sest_name(9) == seq![82u8, 101u8, 116u8, 117u8, 114u8, 110u8, 45u8, 80u8, 97u8, 116u8, 104u8, 58u8],
        sest_name(10) == seq![70u8, 114u8, 111u8, 109u8, 32u8],
        mode_weight(SenderMode::Reply, 0) > mode_weight(SenderMode::Reply, 1) > mode_weight(SenderMode::Reply, 2)
            > mode_weight(SenderMode::Reply, 9) > mode_weight(SenderMode::Reply, 10) > mode_weight(SenderMode::Reply, 8)
            > mode_weight(SenderMode::Reply, 7) > mode_weight(SenderMode::Reply, 6) > 0,
        mode_weight(SenderMode::Reply, 3) == 0 && mode_weight(SenderMode::Reply, 4) == 0 && mode_weight(SenderMode::Reply, 5) == 0,
        mode_weight(SenderMode::ResentReply, 3) > mode_weight(SenderMode::ResentReply, 4) > mode_weight(SenderMode::ResentReply, 5)
            > mode_weight(SenderMode::ResentReply, 0) > mode_weight(SenderMode::ResentReply, 1) > mode_weight(SenderMode::ResentReply, 2)
            > mode_weight(SenderMode::ResentReply, 9) > mode_weight(SenderMode::ResentReply, 10) > mode_weight(SenderMode::ResentReply, 8)
            > mode_weight(SenderMode::ResentReply, 7) > 0,
        mode_weight(SenderMode::ResentReply, 6) == 0,
{
}

} // verus!
