//! Addresses in header values: the address an RFC 822 value names, and
//! how much it is to be trusted.

use vstd::prelude::*;
use vstd::slice::slice_subrange;

use crate::text::{
    chars_of, contains_char, find_char, find_char_in, find_str, find_str_in, rfind_char,
    rfind_char_in, string_of_range, trim, trim_bounds,
};

verus! {

/// The blanks that separate words of an address: space, tab, newline,
/// carriage return.
pub open spec fn is_addr_blank(c: char) -> bool {
    c == ' ' || c == '\t' || c == '\n' || c == '\r'
}

/// Where the comment whose content starts at `i` ends, at nesting depth
/// `depth`: `(` opens, `)` closes, `\` makes the next character count for
/// nothing.  May pass the end by one when `\` is last.
pub open spec fn comment_scan(s: Seq<char>, i: nat, depth: nat) -> nat
    decreases s.len() + 2 - i,
{
    if i >= s.len() || depth == 0 {
        i
    } else if s[i as int] == '(' {
        comment_scan(s, i + 1, depth + 1)
    } else if s[i as int] == ')' {
        comment_scan(s, i + 1, (depth - 1) as nat)
    } else if s[i as int] == '\\' {
        comment_scan(s, i + 2, depth)
    } else {
        comment_scan(s, i + 1, depth)
    }
}

/// Where the word going on at `i` ends: at a blank or the end; a quoted
/// string (`"..."`, with `\` escapes) inside it may hold blanks.  May
/// pass the end by one when a quoted string ends with a lone `\`.
pub open spec fn word_scan(s: Seq<char>, i: nat, quoted: bool) -> nat
    decreases s.len() + 2 - i,
{
    if i >= s.len() {
        i
    } else if quoted {
        if s[i as int] == '"' {
            word_scan(s, i + 1, false)
        } else if s[i as int] == '\\' {
            word_scan(s, i + 2, true)
        } else {
            word_scan(s, i + 1, true)
        }
    } else if is_addr_blank(s[i as int]) {
        i
    } else if s[i as int] == '"' {
        word_scan(s, i + 1, true)
    } else {
        word_scan(s, i + 1, false)
    }
}

/// The first word of `s` from `i` on, past blanks and comments: `None`
/// where the word would run past the end (a quoted string ending in a
/// lone `\`), on which the word cannot be cut out.
pub open spec fn first_word(s: Seq<char>, i: nat) -> Option<Seq<char>>
    decreases s.len() + 2 - i,
{
    if i >= s.len() {
        Some(Seq::empty())
    } else if is_addr_blank(s[i as int]) {
        first_word(s, i + 1)
    } else if s[i as int] == '(' {
        proof {
            lemma_comment_scan(s, i + 1, 1);
        }
        first_word(s, comment_scan(s, i + 1, 1))
    } else {
        let e = word_scan(s, i, false);
        if e <= s.len() {
            Some(s.subrange(i as int, e as int))
        } else {
            None
        }
    }
}

/// The address that a header value names: the value is trimmed; the text
/// between the last `<` and the next `>` after it, if both are there;
/// else the first word past blanks and comments.  `None` on the values
/// whose first word runs past their end.
pub open spec fn address_of(s: Seq<char>) -> Option<Seq<char>> {
    let t = trim(s);
    match rfind_char(t, '<') {
        Some(lt) => match find_char(t.skip(lt as int), '>') {
            Some(gt) => Some(t.subrange(lt + 1 as int, lt + gt as int)),
            None => first_word(t, 0),
        },
        None => first_word(t, 0),
    }
}

pub proof fn lemma_comment_scan(s: Seq<char>, i: nat, depth: nat)
    requires
        i <= s.len() + 1,
    ensures
        i <= comment_scan(s, i, depth) <= s.len() + 1,
    decreases s.len() + 2 - i,
{
    if i < s.len() && depth > 0 {
        if s[i as int] == '(' {
            lemma_comment_scan(s, i + 1, depth + 1);
        } else if s[i as int] == ')' {
            lemma_comment_scan(s, i + 1, (depth - 1) as nat);
        } else if s[i as int] == '\\' {
            lemma_comment_scan(s, i + 2, depth);
        } else {
            lemma_comment_scan(s, i + 1, depth);
        }
    }
}

pub proof fn lemma_word_scan(s: Seq<char>, i: nat, quoted: bool)
    requires
        i <= s.len() + 1,
    ensures
        i <= word_scan(s, i, quoted) <= s.len() + 1,
    decreases s.len() + 2 - i,
{
    if i < s.len() {
        if quoted {
            if s[i as int] == '"' {
                lemma_word_scan(s, i + 1, false);
            } else if s[i as int] == '\\' {
                lemma_word_scan(s, i + 2, true);
            } else {
                lemma_word_scan(s, i + 1, true);
            }
        } else if !is_addr_blank(s[i as int]) {
            if s[i as int] == '"' {
                lemma_word_scan(s, i + 1, true);
            } else {
                lemma_word_scan(s, i + 1, false);
            }
        }
    }
}

/// End of the comment whose content starts at `i`; `over` tells that the
/// scan passed the end by one.
fn comment_end(v: &[char], i: usize) -> (r: (usize, bool))
    requires
        1 <= i <= v@.len(),
    ensures
        r.0 <= v@.len(),
        comment_scan(v@, i as nat, 1) == if r.1 { v@.len() + 1 } else { r.0 as nat },
{
    let n = v.len();
    let mut k = i;
    let mut depth: usize = 1;
    while k < n && depth > 0
        invariant
            n == v@.len(),
            1 <= i <= k <= n,
            depth <= k - i + 1,
            comment_scan(v@, i as nat, 1) == comment_scan(v@, k as nat, depth as nat),
        decreases n - k,
    {
        let c = v[k];
        if c == '(' {
            depth += 1;
        } else if c == ')' {
            depth -= 1;
        } else if c == '\\' {
            if k + 1 >= n {
                assert(comment_scan(v@, (k + 2) as nat, depth as nat) == v@.len() + 1);
                return (n, true);
            }
            k += 1;
        }
        k += 1;
    }
    (k, false)
}

/// End of the word going on at `i`; `over` tells that the scan passed the
/// end by one.
fn word_end(v: &[char], i: usize) -> (r: (usize, bool))
    requires
        i <= v@.len(),
    ensures
        r.0 <= v@.len(),
        word_scan(v@, i as nat, false) == if r.1 { v@.len() + 1 } else { r.0 as nat },
{
    let n = v.len();
    let mut k = i;
    let mut quoted = false;
    while k < n
        invariant
            n == v@.len(),
            i <= k <= n,
            word_scan(v@, i as nat, false) == word_scan(v@, k as nat, quoted),
        decreases n - k,
    {
        let c = v[k];
        if quoted {
            if c == '"' {
                quoted = false;
            } else if c == '\\' {
                if k + 1 >= n {
                    assert(word_scan(v@, (k + 2) as nat, true) == v@.len() + 1);
                    return (n, true);
                }
                k += 1;
            }
        } else if c == ' ' || c == '\t' || c == '\n' || c == '\r' {
            return (k, false);
        } else if c == '"' {
            quoted = true;
        }
        k += 1;
    }
    (k, false)
}

/// The first word of `v`, past blanks and comments; `None` where it runs
/// past the end.
fn first_word_of(v: &[char]) -> (r: Option<String>)
    ensures
        match r {
            Some(w) => first_word(v@, 0) == Some(w@),
            None => first_word(v@, 0) is None,
        },
{
    let n = v.len();
    let mut i: usize = 0;
    while i < n
        invariant
            n == v@.len(),
            i <= n,
            first_word(v@, 0) == first_word(v@, i as nat),
        decreases n - i,
    {
        let c = v[i];
        if c == ' ' || c == '\t' || c == '\n' || c == '\r' {
            i += 1;
        } else if c == '(' {
            let (e, over) = comment_end(v, i + 1);
            proof {
                lemma_comment_scan(v@, (i + 1) as nat, 1);
            }
            if over {
                assert(first_word(v@, (v@.len() + 1) as nat) == Some(Seq::<char>::empty()));
                let w = String::new();
                assert(w@ =~= Seq::<char>::empty());
                return Some(w);
            }
            i = e;
        } else {
            let (e, over) = word_end(v, i);
            proof {
                lemma_word_scan(v@, i as nat, false);
            }
            if over {
                return None;
            }
            return Some(string_of_range(v, i, e));
        }
    }
    let w = String::new();
    assert(w@ =~= Seq::<char>::empty());
    Some(w)
}

/// Whether `address_of` gives an address for `s`: its first word, where
/// one is looked for, does not run past the end.
pub open spec fn has_address(s: Seq<char>) -> bool {
    address_of(s) is Some
}

/// Extract an RFC 822 address from a header value.
/// Prefers `<addr>` angle-bracket form (after the last `<`), skips
/// comments `(...)` and quoted strings, falls back to first non-comment
/// word.
pub fn extract_address(s: &str) -> (r: String)
    requires
        has_address(s@),
    ensures
        Some(r@) == address_of(s@),
{
    match address(s) {
        Some(a) => a,
        None => String::new(),
    }
}

/// The address that a header value names, where one can be cut out.
pub fn address(s: &str) -> (r: Option<String>)
    ensures
        match r {
            Some(a) => address_of(s@) == Some(a@),
            None => address_of(s@) is None,
        },
{
    let v0 = chars_of(s);
    let (a, b) = trim_bounds(v0.as_slice());
    let t = slice_subrange(v0.as_slice(), a, b);
    assert(t@ =~= trim(s@));
    let tn = t.len();
    match rfind_char_in(t, '<', tn) {
        Some(lt) => {
            match find_char_in(t, '>', lt) {
                Some(k) => {
                    proof {
                        crate::text::lemma_find_char_shift(t@, '>', lt as int);
                    }
                    return Some(string_of_range(t, lt + 1, k));
                },
                None => {
                    proof {
                        crate::text::lemma_find_char_shift(t@, '>', lt as int);
                    }
                },
            }
        },
        None => {},
    }
    first_word_of(t)
}

/// How much an address is mistrusted: no `@`, `!` or `/` at all is worst,
/// then a `.UUCP` address, then a domain without a dot, then a bang path.
pub open spec fn penalty_of(a: Seq<char>) -> int {
    if !a.contains('@') && !a.contains('!') && !a.contains('/') {
        48
    } else if find_str(a, seq!['.', 'U', 'U', 'C', 'P']) is Some {
        36
    } else if a.contains('@') && !a.contains('.') {
        24
    } else if a.contains('!') {
        12
    } else {
        0
    }
}

/// Address quality penalty.
/// Higher penalty = worse address; the steps are multiples of 12, one
/// more than the number of sender fields.
pub fn addr_penalty(addr: &str) -> (r: i32)
    ensures
        r == penalty_of(addr@),
{
    let v = chars_of(addr);
    let at = contains_char(v.as_slice(), '@');
    let bang = contains_char(v.as_slice(), '!');
    let slash = contains_char(v.as_slice(), '/');
    let uucp: [char; 5] = ['.', 'U', 'U', 'C', 'P'];
    let u = find_str_in(v.as_slice(), uucp.as_slice(), 0);
    assert(uucp@ =~= seq!['.', 'U', 'U', 'C', 'P']);
    if !at && !bang && !slash {
        48
    } else if u.is_some() {
        36
    } else if at && !contains_char(v.as_slice(), '.') {
        24
    } else if bang {
        12
    } else {
        0
    }
}

} // verus!
