//! Decimal numbers in text: what `str::parse` accepts for unsigned
//! integers and for floating-point numbers.

use vstd::prelude::*;

use crate::text::{ascii_digit, is_ascii_digit};

verus! {

/// Every character of `s` is an ASCII digit.
pub open spec fn all_digits(s: Seq<char>) -> bool {
    forall|i: int| 0 <= i < s.len() ==> is_ascii_digit(#[trigger] s[i])
}

/// The value of a decimal digit.
pub open spec fn digit(c: char) -> nat {
    (c as int - '0' as int) as nat
}

/// The number that the decimal digits `s` spell.
pub open spec fn digits_value(s: Seq<char>) -> nat
    decreases s.len(),
{
    if s.len() == 0 {
        0
    } else {
        digits_value(s.drop_last()) * 10 + digit(s.last())
    }
}

/// The digits of an unsigned number: an optional `+`, then the rest.
pub open spec fn unsigned_digits(s: Seq<char>) -> Seq<char> {
    if s.len() > 0 && s[0] == '+' {
        s.skip(1)
    } else {
        s
    }
}

/// What `str::parse::<u64>` (or `usize`, with `max`) gives: an optional
/// `+` and one or more ASCII digits, whose value does not exceed `max`.
pub open spec fn parse_unsigned(s: Seq<char>, max: nat) -> Option<nat> {
    let d = unsigned_digits(s);
    if d.len() == 0 || !all_digits(d) || digits_value(d) > max {
        None
    } else {
        Some(digits_value(d))
    }
}

proof fn lemma_digits_value_step(s: Seq<char>, i: int)
    requires
        0 <= i < s.len(),
    ensures
        digits_value(s.take(i + 1)) == digits_value(s.take(i)) * 10 + digit(s[i]),
{
    assert(s.take(i + 1).drop_last() =~= s.take(i));
}

/// Parse an unsigned decimal number no greater than `max`.
pub fn parse_unsigned_chars(v: &[char], max: u64) -> (r: Option<u64>)
    ensures
        r matches Some(n) ==> parse_unsigned(v@, max as nat) == Some(n as nat),
        r is None ==> parse_unsigned(v@, max as nat) is None,
{
    let start: usize = if v.len() > 0 && v[0] == '+' {
        1
    } else {
        0
    };
    let ghost d = unsigned_digits(v@);
    assert(d =~= v@.skip(start as int));
    if start == v.len() {
        assert(d.len() == 0);
        return None;
    }
    let mut acc: u64 = 0;
    let mut over = false;
    let mut i = start;
    while i < v.len()
        invariant
            start <= i <= v@.len(),
            d == v@.skip(start as int),
            d == unsigned_digits(v@),
            all_digits(d.take(i - start)),
            !over ==> acc == digits_value(d.take(i - start)) && acc <= max,
            over ==> digits_value(d.take(i - start)) > max,
        decreases v@.len() - i,
    {
        let c = v[i];
        if !ascii_digit(c) {
            assert(d[i - start] == c);
            assert(!is_ascii_digit(d[i - start]));
            assert(!all_digits(d));
            return None;
        }
        proof {
            lemma_digits_value_step(d, i - start);
            assert(d.take(i - start + 1) =~= d.take(i - start).push(c));
        }
        let dv = (c as u32 - '0' as u32) as u64;
        assert(dv == digit(c));
        assert(all_digits(d.take(i - start + 1))) by {
            assert forall|k: int| 0 <= k < i - start + 1 implies is_ascii_digit(#[trigger] d.take(i - start + 1)[k]) by {
                if k < i - start {
                    assert(d.take(i - start + 1)[k] == d.take(i - start)[k]);
                }
            }
        }
        if !over && dv > max {
            over = true;
            assert(digits_value(d.take(i - start + 1)) >= dv) by (nonlinear_arith)
                requires
                    digits_value(d.take(i - start + 1)) == digits_value(d.take(i - start)) * 10 + dv,
            ;
        } else if !over {
            if acc > (max - dv) / 10 {
                over = true;
                assert(acc * 10 + dv > max) by (nonlinear_arith)
                    requires
                        acc > (max - dv) / 10,
                        dv <= max,
                ;
            } else {
                assert(acc * 10 + dv <= max) by (nonlinear_arith)
                    requires
                        acc <= (max - dv) / 10,
                        dv <= max,
                ;
                acc = acc * 10 + dv;
            }
        } else {
            assert(digits_value(d.take(i - start + 1)) >= digits_value(d.take(i - start))) by (nonlinear_arith)
                requires
                    digits_value(d.take(i - start + 1)) == digits_value(d.take(i - start)) * 10 + dv,
            ;
        }
        i += 1;
    }
    assert(d.take(i - start) =~= d);
    if over {
        None
    } else {
        Some(acc)
    }
}

/// `s` matches, character by character, either `lo` or `up` (the same
/// word in lower and upper case).
pub open spec fn eq_either(s: Seq<char>, lo: Seq<char>, up: Seq<char>) -> bool {
    s.len() == lo.len() && lo.len() == up.len() && forall|i: int|
        0 <= i < s.len() ==> (#[trigger] s[i] == lo[i] || s[i] == up[i])
}

/// An exponent: `e` or `E`, an optional sign, and one or more digits.
pub open spec fn is_exponent(e: Seq<char>) -> bool {
    &&& e.len() >= 2
    &&& (e[0] == 'e' || e[0] == 'E')
    &&& {
        let ds = if e[1] == '+' || e[1] == '-' { e.skip(2) } else { e.skip(1) };
        ds.len() > 0 && all_digits(ds)
    }
}

/// Index of the first `.` in `s` (or the length).
pub open spec fn dot_at(s: Seq<char>, i: nat) -> nat
    decreases s.len() - i,
{
    if i >= s.len() {
        s.len()
    } else if s[i as int] == '.' {
        i
    } else {
        dot_at(s, i + 1)
    }
}

/// A mantissa: digits with at most one `.`, and at least one digit.
pub open spec fn is_mantissa(m: Seq<char>) -> bool {
    let p = dot_at(m, 0);
    if p >= m.len() {
        m.len() > 0 && all_digits(m)
    } else {
        let before = m.take(p as int);
        let after = m.skip(p + 1 as int);
        all_digits(before) && all_digits(after) && before.len() + after.len() > 0
    }
}

/// Index of the first `e` or `E` in `s` (or the length).
pub open spec fn exp_at(s: Seq<char>, i: nat) -> nat
    decreases s.len() - i,
{
    if i >= s.len() {
        s.len()
    } else if s[i as int] == 'e' || s[i as int] == 'E' {
        i
    } else {
        exp_at(s, i + 1)
    }
}

/// A decimal number: a mantissa, then an optional exponent.
pub open spec fn is_decimal(b: Seq<char>) -> bool {
    let m = exp_at(b, 0);
    is_mantissa(b.take(m as int)) && (m == b.len() || is_exponent(b.skip(m as int)))
}

/// What `str::parse::<f64>` accepts, as its documentation gives the
/// grammar: an optional sign, then `inf`, `infinity`, `nan` (in any
/// case) or a decimal number with an optional exponent.
pub open spec fn is_float_text(s: Seq<char>) -> bool {
    let b = if s.len() > 0 && (s[0] == '+' || s[0] == '-') { s.skip(1) } else { s };
    ||| eq_either(b, seq!['i', 'n', 'f'], seq!['I', 'N', 'F'])
    ||| eq_either(
        b,
        seq!['i', 'n', 'f', 'i', 'n', 'i', 't', 'y'],
        seq!['I', 'N', 'F', 'I', 'N', 'I', 'T', 'Y'],
    )
    ||| eq_either(b, seq!['n', 'a', 'n'], seq!['N', 'A', 'N'])
    ||| is_decimal(b)
}

fn eq_either_exec(s: &[char], lo: &[char], up: &[char]) -> (b: bool)
    requires
        lo@.len() == up@.len(),
    ensures
        b == eq_either(s@, lo@, up@),
{
    if s.len() != lo.len() {
        return false;
    }
    let mut i: usize = 0;
    while i < s.len()
        invariant
            s@.len() == lo@.len(),
            lo@.len() == up@.len(),
            i <= s@.len(),
            forall|k: int| 0 <= k < i ==> (#[trigger] s@[k] == lo@[k] || s@[k] == up@[k]),
        decreases s@.len() - i,
    {
        if !(s[i] == lo[i] || s[i] == up[i]) {
            return false;
        }
        i += 1;
    }
    true
}

fn all_digits_exec(s: &[char], a: usize, b: usize) -> (r: bool)
    requires
        a <= b <= s@.len(),
    ensures
        r == all_digits(s@.subrange(a as int, b as int)),
{
    let mut i = a;
    while i < b
        invariant
            a <= i <= b,
            b <= s@.len(),
            forall|k: int| a <= k < i ==> is_ascii_digit(#[trigger] s@[k]),
        decreases b - i,
    {
        if !ascii_digit(s[i]) {
            assert(s@.subrange(a as int, b as int)[i - a] == s@[i as int]);
            return false;
        }
        i += 1;
    }
    assert forall|k: int| 0 <= k < b - a implies is_ascii_digit(#[trigger] s@.subrange(a as int, b as int)[k]) by {
        assert(s@.subrange(a as int, b as int)[k] == s@[a + k]);
    }
    true
}

fn is_mantissa_exec(m: &[char]) -> (r: bool)
    ensures
        r == is_mantissa(m@),
{
    let mut p: usize = 0;
    while p < m.len() && m[p] != '.'
        invariant
            p <= m@.len(),
            dot_at(m@, 0) == dot_at(m@, p as nat),
        decreases m@.len() - p,
    {
        p += 1;
    }
    if p >= m.len() {
        assert(m@.subrange(0, m@.len() as int) =~= m@);
        m.len() > 0 && all_digits_exec(m, 0, m.len())
    } else {
        assert(m@.take(p as int) =~= m@.subrange(0, p as int));
        assert(m@.skip(p + 1) =~= m@.subrange(p + 1, m@.len() as int));
        all_digits_exec(m, 0, p) && all_digits_exec(m, p + 1, m.len()) && (p > 0 || m.len() > p + 1)
    }
}

fn is_decimal_exec(b: &[char]) -> (r: bool)
    ensures
        r == is_decimal(b@),
{
    let mut m: usize = 0;
    while m < b.len() && b[m] != 'e' && b[m] != 'E'
        invariant
            m <= b@.len(),
            exp_at(b@, 0) == exp_at(b@, m as nat),
        decreases b@.len() - m,
    {
        m += 1;
    }
    let mant = vstd::slice::slice_subrange(b, 0, m);
    assert(mant@ =~= b@.take(m as int));
    if !is_mantissa_exec(mant) {
        return false;
    }
    if m == b.len() {
        return true;
    }
    let e = vstd::slice::slice_subrange(b, m, b.len());
    assert(e@ =~= b@.skip(m as int));
    is_exponent_exec(e)
}

fn is_exponent_exec(e: &[char]) -> (r: bool)
    ensures
        r == is_exponent(e@),
{
    if e.len() < 2 {
        return false;
    }
    if !(e[0] == 'e' || e[0] == 'E') {
        return false;
    }
    let ds: usize = if e[1] == '+' || e[1] == '-' {
        2
    } else {
        1
    };
    assert(e@.skip(ds as int) =~= e@.subrange(ds as int, e@.len() as int));
    e.len() > ds && all_digits_exec(e, ds, e.len())
}

/// Whether the characters `v` read as a floating-point number.
pub fn is_float_chars(v: &[char]) -> (r: bool)
    ensures
        r == is_float_text(v@),
{
    let s: usize = if v.len() > 0 && (v[0] == '+' || v[0] == '-') {
        1
    } else {
        0
    };
    let b = vstd::slice::slice_subrange(v, s, v.len());
    assert(b@ =~= (if v@.len() > 0 && (v@[0] == '+' || v@[0] == '-') { v@.skip(1) } else { v@ }));
    let inf = ['i', 'n', 'f'];
    let inf_up = ['I', 'N', 'F'];
    let infinity = ['i', 'n', 'f', 'i', 'n', 'i', 't', 'y'];
    let infinity_up = ['I', 'N', 'F', 'I', 'N', 'I', 'T', 'Y'];
    let nan = ['n', 'a', 'n'];
    let nan_up = ['N', 'A', 'N'];
    assert(inf@ =~= seq!['i', 'n', 'f']);
    assert(inf_up@ =~= seq!['I', 'N', 'F']);
    assert(infinity@ =~= seq!['i', 'n', 'f', 'i', 'n', 'i', 't', 'y']);
    assert(infinity_up@ =~= seq!['I', 'N', 'F', 'I', 'N', 'I', 'T', 'Y']);
    assert(nan@ =~= seq!['n', 'a', 'n']);
    assert(nan_up@ =~= seq!['N', 'A', 'N']);
    let word = eq_either_exec(b, &inf, &inf_up) || eq_either_exec(b, &infinity, &infinity_up)
        || eq_either_exec(b, &nan, &nan_up);
    word || is_decimal_exec(b)
}

/// The character of a decimal digit.
pub open spec fn digit_char(d: nat) -> char {
    if d == 0 {
        '0'
    } else if d == 1 {
        '1'
    } else if d == 2 {
        '2'
    } else if d == 3 {
        '3'
    } else if d == 4 {
        '4'
    } else if d == 5 {
        '5'
    } else if d == 6 {
        '6'
    } else if d == 7 {
        '7'
    } else if d == 8 {
        '8'
    } else {
        '9'
    }
}

/// The decimal digits of `n`, without leading zeros (`0` for zero).
pub open spec fn decimal(n: nat) -> Seq<char>
    decreases n,
{
    if n < 10 {
        seq![digit_char(n)]
    } else {
        decimal(n / 10).push(digit_char(n % 10))
    }
}

fn digit_char_exec(d: u64) -> (c: char)
    requires
        d < 10,
    ensures
        c == digit_char(d as nat),
{
    if d == 0 {
        '0'
    } else if d == 1 {
        '1'
    } else if d == 2 {
        '2'
    } else if d == 3 {
        '3'
    } else if d == 4 {
        '4'
    } else if d == 5 {
        '5'
    } else if d == 6 {
        '6'
    } else if d == 7 {
        '7'
    } else if d == 8 {
        '8'
    } else {
        '9'
    }
}

/// Append the decimal digits of `n` to `out`.
pub fn push_decimal(out: &mut Vec<char>, n: u64)
    ensures
        final(out)@ == old(out)@ + decimal(n as nat),
    decreases n,
{
    if n < 10 {
        out.push(digit_char_exec(n));
        assert(decimal(n as nat) =~= seq![digit_char(n as nat)]);
    } else {
        push_decimal(out, n / 10);
        out.push(digit_char_exec(n % 10));
    }
}

/// The decimal digits of `n`.
pub fn decimal_chars(n: u64) -> (r: Vec<char>)
    ensures
        r@ == decimal(n as nat),
{
    let mut v: Vec<char> = Vec::new();
    push_decimal(&mut v, n);
    assert(v@ =~= decimal(n as nat));
    v
}

/// `10` to the power `k`.
pub open spec fn pow10(k: nat) -> nat
    decreases k,
{
    if k == 0 {
        1
    } else {
        10 * pow10((k - 1) as nat)
    }
}

pub proof fn lemma_decimal_len(n: nat, k: nat)
    requires
        1 <= k,
        n < pow10(k),
    ensures
        1 <= decimal(n).len() <= k,
    decreases k,
{
    if n >= 10 {
        assert(k >= 2) by {
            if k == 1 {
                assert(pow10(1) == 10 * pow10(0));
            }
        }
        assert(n / 10 < pow10((k - 1) as nat));
        lemma_decimal_len(n / 10, (k - 1) as nat);
    }
}

/// A `u64` has at most 20 decimal digits.
pub proof fn lemma_decimal_len_u64(n: u64)
    ensures
        1 <= decimal(n as nat).len() <= 20,
{
    assert(pow10(20) == 100000000000000000000) by {
        reveal_with_fuel(pow10, 21);
    }
    lemma_decimal_len(n as nat, 20);
}

/// The digits of `n` are digits, at least one, and spell `n`.
pub proof fn lemma_decimal_digits(n: nat)
    ensures
        decimal(n).len() > 0,
        all_digits(decimal(n)),
        digits_value(decimal(n)) == n,
    decreases n,
{
    let d = n % 10;
    assert(digit(digit_char(d)) == d && is_ascii_digit(digit_char(d))) by {
        assert(d < 10);
    }
    if n < 10 {
        assert(n % 10 == n);
        assert(decimal(n).drop_last() =~= Seq::<char>::empty());
        assert(decimal(n).last() == digit_char(n));
        assert(digits_value(decimal(n)) == digits_value(decimal(n).drop_last()) * 10 + digit(decimal(n).last()));
    } else {
        lemma_decimal_digits(n / 10);
        assert(decimal(n).drop_last() =~= decimal(n / 10));
        assert(decimal(n).last() == digit_char(d));
        assert(digits_value(decimal(n)) == digits_value(decimal(n).drop_last()) * 10 + digit(decimal(n).last()));
        assert(n == (n / 10) * 10 + n % 10) by (nonlinear_arith);
        assert forall|i: int| 0 <= i < decimal(n).len() implies is_ascii_digit(#[trigger] decimal(n)[i]) by {
            if i < decimal(n).len() - 1 {
                assert(decimal(n)[i] == decimal(n / 10)[i]);
            }
        }
    }
}

/// A number's digits followed by a non-digit split only one way: the
/// numbers agree, and so does what follows them.
pub proof fn lemma_decimal_split(a: nat, b: nat, x: Seq<char>, y: Seq<char>)
    requires
        decimal(a) + x == decimal(b) + y,
        x.len() > 0,
        !is_ascii_digit(x[0]),
        y.len() > 0,
        !is_ascii_digit(y[0]),
    ensures
        a == b,
        x == y,
{
    lemma_decimal_digits(a);
    lemma_decimal_digits(b);
    let da = decimal(a);
    let db = decimal(b);
    let s = da + x;
    if da.len() < db.len() {
        assert(s[da.len() as int] == x[0]);
        assert(s[da.len() as int] == db[da.len() as int]);
    } else if db.len() < da.len() {
        assert(s[db.len() as int] == y[0]);
        assert(s[db.len() as int] == da[db.len() as int]);
    } else {
        assert(s.take(da.len() as int) =~= da);
        assert(s.take(da.len() as int) =~= db);
        assert(s.skip(da.len() as int) =~= x);
        assert(s.skip(da.len() as int) =~= y);
    }
}

} // verus!
