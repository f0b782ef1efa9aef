//! Character-level helpers shared by the parsers: what `str::trim`,
//! `str::find` and their kin compute, stated over sequences of
//! characters.

use vstd::prelude::*;
use vstd::slice::slice_subrange;

verus! {

/// ASCII letter.
pub open spec fn is_ascii_alpha(c: char) -> bool {
    ('a' <= c && c <= 'z') || ('A' <= c && c <= 'Z')
}

/// ASCII decimal digit.
pub open spec fn is_ascii_digit(c: char) -> bool {
    '0' <= c && c <= '9'
}

/// ASCII letter or digit.
pub open spec fn is_ascii_alnum(c: char) -> bool {
    is_ascii_alpha(c) || is_ascii_digit(c)
}

/// Unicode `White_Space` (what `char::is_whitespace` tests).
pub open spec fn is_ws(c: char) -> bool {
    ||| ('\t' <= c && c <= '\r')
    ||| c == ' '
    ||| c == '\u{85}'
    ||| c == '\u{A0}'
    ||| c == '\u{1680}'
    ||| ('\u{2000}' <= c && c <= '\u{200A}')
    ||| c == '\u{2028}'
    ||| c == '\u{2029}'
    ||| c == '\u{202F}'
    ||| c == '\u{205F}'
    ||| c == '\u{3000}'
}

pub fn ascii_alpha(c: char) -> (b: bool)
    ensures
        b == is_ascii_alpha(c),
{
    ('a' <= c && c <= 'z') || ('A' <= c && c <= 'Z')
}

pub fn ascii_digit(c: char) -> (b: bool)
    ensures
        b == is_ascii_digit(c),
{
    '0' <= c && c <= '9'
}

pub fn whitespace(c: char) -> (b: bool)
    ensures
        b == is_ws(c),
{
    ('\t' <= c && c <= '\r') || c == ' ' || c == '\u{85}' || c == '\u{A0}' || c == '\u{1680}'
        || ('\u{2000}' <= c && c <= '\u{200A}') || c == '\u{2028}' || c == '\u{2029}' || c
        == '\u{202F}' || c == '\u{205F}' || c == '\u{3000}'
}

/// Index of the first character of `s` at or after `i` that is no
/// whitespace (or the length).
pub open spec fn skip_ws(s: Seq<char>, i: nat) -> nat
    decreases s.len() - i,
{
    if i >= s.len() {
        s.len()
    } else if is_ws(s[i as int]) {
        skip_ws(s, i + 1)
    } else {
        i
    }
}

/// Index just past the last character of `s.take(j)` that is no
/// whitespace (or 0).
pub open spec fn back_ws(s: Seq<char>, j: int) -> int
    decreases j,
{
    if j <= 0 {
        0
    } else if is_ws(s[j - 1]) {
        back_ws(s, j - 1)
    } else {
        j
    }
}

/// `str::trim_start`.
pub open spec fn trim_start(s: Seq<char>) -> Seq<char> {
    s.skip(skip_ws(s, 0) as int)
}

/// `str::trim_end`.
pub open spec fn trim_end(s: Seq<char>) -> Seq<char> {
    s.take(back_ws(s, s.len() as int))
}

/// `str::trim`.
pub open spec fn trim(s: Seq<char>) -> Seq<char> {
    trim_end(trim_start(s))
}

/// Index of the first occurrence of `c` in `s` at or after `i`.
pub open spec fn find_char_from(s: Seq<char>, c: char, i: nat) -> Option<nat>
    decreases s.len() - i,
{
    if i >= s.len() {
        None
    } else if s[i as int] == c {
        Some(i)
    } else {
        find_char_from(s, c, i + 1)
    }
}

/// `str::find` with a character pattern.
pub open spec fn find_char(s: Seq<char>, c: char) -> Option<nat> {
    find_char_from(s, c, 0)
}

/// `p` occurs in `s` at index `i`.
pub open spec fn occurs_at(s: Seq<char>, p: Seq<char>, i: int) -> bool {
    0 <= i && i + p.len() <= s.len() && s.subrange(i, i + p.len()) == p
}

/// Index of the first occurrence of `p` in `s` at or after `i`.
pub open spec fn find_str_from(s: Seq<char>, p: Seq<char>, i: nat) -> Option<nat>
    decreases s.len() + 1 - i,
{
    if i > s.len() {
        None
    } else if occurs_at(s, p, i as int) {
        Some(i)
    } else {
        find_str_from(s, p, i + 1)
    }
}

/// `str::find` with a string pattern.
pub open spec fn find_str(s: Seq<char>, p: Seq<char>) -> Option<nat> {
    find_str_from(s, p, 0)
}

/// Index of the last occurrence of `c` in `s.take(j)`.
pub open spec fn rfind_char_to(s: Seq<char>, c: char, j: int) -> Option<nat>
    decreases j,
{
    if j <= 0 {
        None
    } else if s[j - 1] == c {
        Some((j - 1) as nat)
    } else {
        rfind_char_to(s, c, j - 1)
    }
}

/// `str::rfind` with a character pattern.
pub open spec fn rfind_char(s: Seq<char>, c: char) -> Option<nat> {
    rfind_char_to(s, c, s.len() as int)
}

/// `s` begins with character `c`.
pub open spec fn starts_with_char(s: Seq<char>, c: char) -> bool {
    s.len() > 0 && s[0] == c
}

/// `s` ends with character `c`.
pub open spec fn ends_with_char(s: Seq<char>, c: char) -> bool {
    s.len() > 0 && s.last() == c
}

/// `s` begins with `p`.
pub open spec fn starts_with_seq(s: Seq<char>, p: Seq<char>) -> bool {
    occurs_at(s, p, 0)
}

/// The characters of `s`, in order.
pub(crate) fn chars_of(s: &str) -> (v: Vec<char>)
    ensures
        v@ == s@,
{
    broadcast use vstd::string::axiom_spec_iter;
    let mut v: Vec<char> = Vec::new();
    for c in it: s.chars()
        invariant
            it.seq() == s@,
            v@ == it.seq().take(it.index() as int),
    {
        v.push(c);
        assert(v@ =~= it.seq().take(it.index() + 1));
    }
    assert(v@ =~= s@);
    v
}

/// The text that `b` encodes in UTF-8, if it is valid UTF-8
/// (`std::str::from_utf8`).
#[verifier::external_body]
pub(crate) fn str_from_utf8(b: &[u8]) -> (r: Option<&str>)
    ensures
        r is Some <==> vstd::utf8::valid_utf8(b@),
        r matches Some(s) ==> s@ == vstd::utf8::decode_utf8(b@),
{
    std::str::from_utf8(b).ok()
}

/// The text that `String::from_utf8_lossy` makes of bytes: each invalid
/// sequence becomes U+FFFD.
pub uninterp spec fn utf8_lossy(b: Seq<u8>) -> Seq<char>;

/// The text of `b`, with each invalid UTF-8 sequence replaced by U+FFFD
/// (`String::from_utf8_lossy`); valid UTF-8 is decoded as it stands.
#[verifier::external_body]
pub(crate) fn lossy_string(b: &[u8]) -> (r: String)
    ensures
        r@ == utf8_lossy(b@),
        vstd::utf8::valid_utf8(b@) ==> r@ == vstd::utf8::decode_utf8(b@),
{
    String::from_utf8_lossy(b).into_owned()
}

/// A string holding exactly the characters of `v` (`String::from_iter`).
#[verifier::external_body]
pub(crate) fn string_from(v: &[char]) -> (s: String)
    ensures
        s@ == v@,
{
    v.iter().collect()
}

/// Whether `char::is_alphanumeric` holds of a character: alphabetic or
/// numeric by Unicode's tables.
pub uninterp spec fn alphanumeric(c: char) -> bool;

/// `char::is_alphanumeric`: whether `c` is alphabetic or numeric.
#[verifier::external_body]
pub(crate) fn is_alphanumeric(c: char) -> (b: bool)
    ensures
        b == alphanumeric(c),
{
    c.is_alphanumeric()
}

/// Whether two character slices hold the same characters.
pub fn chars_eq(a: &[char], b: &[char]) -> (r: bool)
    ensures
        r == (a@ == b@),
{
    if a.len() != b.len() {
        return false;
    }
    let mut i: usize = 0;
    while i < a.len()
        invariant
            a@.len() == b@.len(),
            i <= a@.len(),
            forall|k: int| 0 <= k < i ==> a@[k] == b@[k],
        decreases a@.len() - i,
    {
        if a[i] != b[i] {
            return false;
        }
        i += 1;
    }
    assert(a@ =~= b@);
    true
}

/// Index of the first non-whitespace character at or after `i`.
pub fn skip_ws_from(v: &[char], i: usize) -> (r: usize)
    requires
        i <= v@.len(),
    ensures
        r == skip_ws(v@, i as nat),
        i <= r <= v@.len(),
{
    let mut k = i;
    while k < v.len() && whitespace(v[k])
        invariant
            i <= k <= v@.len(),
            skip_ws(v@, i as nat) == skip_ws(v@, k as nat),
        decreases v@.len() - k,
    {
        k += 1;
    }
    k
}

/// Index just past the last non-whitespace character before `j`.
pub fn back_ws_from(v: &[char], j: usize) -> (r: usize)
    requires
        j <= v@.len(),
    ensures
        r == back_ws(v@, j as int),
        r <= j,
{
    let mut k = j;
    while k > 0 && whitespace(v[k - 1])
        invariant
            k <= j <= v@.len(),
            back_ws(v@, j as int) == back_ws(v@, k as int),
        decreases k,
    {
        k -= 1;
    }
    k
}

pub proof fn lemma_back_ws_take(s: Seq<char>, j: int, m: int)
    requires
        0 <= j <= m <= s.len(),
    ensures
        back_ws(s.take(m), j) == back_ws(s, j),
    decreases j,
{
    if j > 0 {
        assert(s.take(m)[j - 1] == s[j - 1]);
        lemma_back_ws_take(s, j - 1, m);
    }
}

pub proof fn lemma_skip_ws_skip(s: Seq<char>, i: nat, k: nat)
    requires
        k <= i <= s.len(),
    ensures
        skip_ws(s.skip(k as int), (i - k) as nat) + k == skip_ws(s, i),
    decreases s.len() - i,
{
    if i < s.len() {
        assert(s.skip(k as int)[i - k] == s[i as int]);
        if is_ws(s[i as int]) {
            lemma_skip_ws_skip(s, i + 1, k);
        }
    }
}

/// Bounds `(start, end)` of the trimmed part of `v`.
pub fn trim_bounds(v: &[char]) -> (r: (usize, usize))
    ensures
        r.0 <= r.1 <= v@.len(),
        v@.subrange(r.0 as int, r.1 as int) == trim(v@),
        v@.subrange(r.0 as int, v@.len() as int) == trim_start(v@),
        r.0 == skip_ws(v@, 0),
{
    let a = skip_ws_from(v, 0);
    let b = back_ws_from(v, v.len());
    let ghost t = trim_start(v@);
    proof {
        lemma_trim_bounds(v@);
    }
    if b < a {
        proof {
            lemma_back_below_skip(v@);
        }
    }
    (a, if b < a { a } else { b })
}

proof fn lemma_back_below_skip(s: Seq<char>)
    ensures
        back_ws(s, s.len() as int) < skip_ws(s, 0) ==> skip_ws(s, 0) == s.len() && back_ws(s, s.len() as int) == 0,
{
    lemma_skip_ws_all(s, 0);
    lemma_back_ws_all(s, s.len() as int);
    if back_ws(s, s.len() as int) < skip_ws(s, 0) {
        if skip_ws(s, 0) < s.len() {
            let k = skip_ws(s, 0);
            assert(!is_ws(s[k as int]));
            lemma_back_ws_ge(s, s.len() as int, k as int);
        }
    }
}

/// Every character before `skip_ws(s, i)` from `i` is whitespace, and the
/// one there (if any) is not.
pub proof fn lemma_skip_ws_all(s: Seq<char>, i: nat)
    requires
        i <= s.len(),
    ensures
        i <= skip_ws(s, i) <= s.len(),
        forall|k: int| i <= k < skip_ws(s, i) ==> is_ws(#[trigger] s[k]),
        skip_ws(s, i) < s.len() ==> !is_ws(s[skip_ws(s, i) as int]),
    decreases s.len() - i,
{
    if i < s.len() && is_ws(s[i as int]) {
        lemma_skip_ws_all(s, i + 1);
    }
}

/// Every character of `s` from `back_ws(s, j)` to `j` is whitespace, and
/// the one before (if any) is not.
pub proof fn lemma_back_ws_all(s: Seq<char>, j: int)
    requires
        0 <= j <= s.len(),
    ensures
        0 <= back_ws(s, j) <= j,
        forall|k: int| back_ws(s, j) <= k < j ==> is_ws(#[trigger] s[k]),
        back_ws(s, j) > 0 ==> !is_ws(s[back_ws(s, j) - 1]),
    decreases j,
{
    if j > 0 && is_ws(s[j - 1]) {
        lemma_back_ws_all(s, j - 1);
    }
}

proof fn lemma_back_ws_ge(s: Seq<char>, j: int, k: int)
    requires
        0 <= k < j <= s.len(),
        !is_ws(s[k]),
    ensures
        back_ws(s, j) > k,
    decreases j,
{
    if j - 1 > k && is_ws(s[j - 1]) {
        lemma_back_ws_ge(s, j - 1, k);
    }
}

pub proof fn lemma_trim_bounds(s: Seq<char>)
    ensures
        ({
            let a = skip_ws(s, 0) as int;
            let b = back_ws(s, s.len() as int);
            &&& a <= b ==> s.subrange(a, b) == trim(s)
            &&& a > b ==> trim(s) == Seq::<char>::empty()
        }),
{
    let a = skip_ws(s, 0) as int;
    let b = back_ws(s, s.len() as int);
    let t = trim_start(s);
    lemma_skip_ws_all(s, 0);
    lemma_back_ws_all(s, s.len() as int);
    lemma_back_ws_shift(s, a, s.len() as int);
    if a <= b {
        assert(t.take(back_ws(t, t.len() as int)) =~= s.subrange(a, b));
    } else {
        assert(trim(s) =~= Seq::<char>::empty());
    }
}

/// Scanning back over the suffix of `s` after `a` finds the same place.
proof fn lemma_back_ws_shift(s: Seq<char>, a: int, j: int)
    requires
        0 <= a <= j <= s.len(),
        a == skip_ws(s, 0),
        forall|k: int| 0 <= k < a ==> is_ws(#[trigger] s[k]),
    ensures
        back_ws(s.skip(a), j - a) + a == (if back_ws(s, j) < a { a } else { back_ws(s, j) }),
    decreases j,
{
    if j > a {
        assert(s.skip(a)[j - a - 1] == s[j - 1]);
        if is_ws(s[j - 1]) {
            lemma_back_ws_shift(s, a, j - 1);
        }
    } else {
        lemma_back_ws_all(s, j);
    }
}

/// First index of `c` in `v` at or after `i`.
pub fn find_char_in(v: &[char], c: char, i: usize) -> (r: Option<usize>)
    requires
        i <= v@.len(),
    ensures
        r matches Some(k) ==> find_char_from(v@, c, i as nat) == Some(k as nat) && i <= k < v@.len()
            && v@[k as int] == c,
        r is None ==> find_char_from(v@, c, i as nat) is None,
{
    let mut k = i;
    while k < v.len()
        invariant
            i <= k <= v@.len(),
            find_char_from(v@, c, i as nat) == find_char_from(v@, c, k as nat),
        decreases v@.len() - k,
    {
        if v[k] == c {
            return Some(k);
        }
        k += 1;
    }
    None
}

/// Last index of `c` in `v` before `j`.
pub fn rfind_char_in(v: &[char], c: char, j: usize) -> (r: Option<usize>)
    requires
        j <= v@.len(),
    ensures
        r matches Some(k) ==> rfind_char_to(v@, c, j as int) == Some(k as nat) && k < j && v@[k as int] == c,
        r is None ==> rfind_char_to(v@, c, j as int) is None,
{
    let mut k = j;
    while k > 0
        invariant
            k <= j <= v@.len(),
            rfind_char_to(v@, c, j as int) == rfind_char_to(v@, c, k as int),
        decreases k,
    {
        if v[k - 1] == c {
            return Some(k - 1);
        }
        k -= 1;
    }
    None
}

/// `p` occurs in `v` at index `i`.
pub fn occurs_at_exec(v: &[char], p: &[char], i: usize) -> (b: bool)
    ensures
        b == occurs_at(v@, p@, i as int),
{
    if i > v.len() || p.len() > v.len() - i {
        return false;
    }
    let n = v.len();
    let mut k: usize = 0;
    while k < p.len()
        invariant
            n == v@.len(),
            i + p@.len() <= v@.len(),
            k <= p@.len(),
            forall|m: int| 0 <= m < k ==> v@[i + m] == p@[m],
        decreases p@.len() - k,
    {
        if v[i + k] != p[k] {
            assert(v@.subrange(i as int, i + p@.len())[k as int] != p@[k as int]);
            return false;
        }
        k += 1;
    }
    assert(v@.subrange(i as int, i + p@.len()) =~= p@);
    true
}

/// First index at or after `i` where `p` occurs in `v`.
pub fn find_str_in(v: &[char], p: &[char], i: usize) -> (r: Option<usize>)
    requires
        i <= v@.len(),
    ensures
        r matches Some(k) ==> find_str_from(v@, p@, i as nat) == Some(k as nat) && occurs_at(v@, p@, k as int),
        r is None ==> find_str_from(v@, p@, i as nat) is None,
{
    let mut k = i;
    while k <= v.len()
        invariant
            i <= k <= v@.len() + 1,
            find_str_from(v@, p@, i as nat) == find_str_from(v@, p@, k as nat),
        decreases v@.len() + 1 - k,
    {
        if occurs_at_exec(v, p, k) {
            return Some(k);
        }
        if k == v.len() {
            assert(find_str_from(v@, p@, (k + 1) as nat) is None);
            return None;
        }
        k += 1;
    }
    None
}

/// A sub-slice of characters as a string.
pub fn string_of_range(v: &[char], a: usize, b: usize) -> (s: String)
    requires
        a <= b <= v@.len(),
    ensures
        s@ == v@.subrange(a as int, b as int),
{
    string_from(slice_subrange(v, a, b))
}

/// `v` contains `c`.
pub fn contains_char(v: &[char], c: char) -> (b: bool)
    ensures
        b == v@.contains(c),
{
    match find_char_in(v, c, 0) {
        Some(k) => true,
        None => {
            proof {
                lemma_find_char_none(v@, c, 0);
            }
            false
        },
    }
}

pub proof fn lemma_find_char_none(s: Seq<char>, c: char, i: nat)
    requires
        i <= s.len(),
    ensures
        find_char_from(s, c, i) is None <==> forall|k: int| i <= k < s.len() ==> s[k] != c,
        find_char_from(s, c, i) matches Some(k) ==> i <= k < s.len() && s[k as int] == c
            && forall|m: int| i <= m < k ==> s[m] != c,
    decreases s.len() - i,
{
    if i < s.len() && s[i as int] != c {
        lemma_find_char_none(s, c, i + 1);
    }
}

/// Searching the tail of `s` from `a` finds what searching `s` from `a`
/// finds, shifted.
pub proof fn lemma_find_char_shift(s: Seq<char>, c: char, a: int)
    requires
        0 <= a <= s.len(),
    ensures
        match find_char_from(s, c, a as nat) {
            None => find_char(s.subrange(a, s.len() as int), c) is None,
            Some(k) => find_char(s.subrange(a, s.len() as int), c) == Some((k - a) as nat),
        },
{
    lemma_find_char_shift_from(s, c, a, a);
}

proof fn lemma_find_char_shift_from(s: Seq<char>, c: char, a: int, i: int)
    requires
        0 <= a <= i <= s.len(),
    ensures
        match find_char_from(s, c, i as nat) {
            None => find_char_from(s.subrange(a, s.len() as int), c, (i - a) as nat) is None,
            Some(k) => find_char_from(s.subrange(a, s.len() as int), c, (i - a) as nat) == Some(
                (k - a) as nat,
            ),
        },
    decreases s.len() - i,
{
    if i < s.len() {
        assert(s.subrange(a, s.len() as int)[i - a] == s[i]);
        lemma_find_char_shift_from(s, c, a, i + 1);
    }
}

} // verus!
