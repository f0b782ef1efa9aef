//! Formail's argument forms: `+skip` and `-total` before the options,
//! `Name: value` header arguments.

use vstd::prelude::*;

use crate::config::strings_view;
use crate::num::{parse_unsigned, parse_unsigned_chars};
use crate::text::{
    ascii_digit, chars_of, find_char, find_char_in, is_ascii_digit, skip_ws, skip_ws_from,
    lemma_skip_ws_all, string_of_range, trim_start,
};

verus! {

/// The number that a `+N` argument gives to skip, if it is one.
pub open spec fn skip_arg(a: Seq<char>) -> Option<nat> {
    if a.len() > 0 && a[0] == '+' {
        parse_unsigned(a.skip(1), usize::MAX as nat)
    } else {
        None
    }
}

/// The number that a `-N` argument gives as the total, if it is one: a
/// `-` followed by a digit, and a number after the `-`.
pub open spec fn total_arg(a: Seq<char>) -> Option<nat> {
    if a.len() > 1 && a[0] == '-' && is_ascii_digit(a[1]) {
        parse_unsigned(a.skip(1), usize::MAX as nat)
    } else {
        None
    }
}

/// Reading `+N` and `-N` arguments from index `i` on, the last of each
/// winning: the skip, the total, and the index of the first other
/// argument.
pub open spec fn skip_total_from(args: Seq<Seq<char>>, i: nat, skip: Option<nat>, total: Option<nat>) -> (
    Option<nat>,
    Option<nat>,
    nat,
)
    decreases args.len() - i,
{
    if i >= args.len() {
        (skip, total, i)
    } else if skip_arg(args[i as int]) is Some {
        skip_total_from(args, i + 1, skip_arg(args[i as int]), total)
    } else if total_arg(args[i as int]) is Some {
        skip_total_from(args, i + 1, skip, total_arg(args[i as int]))
    } else {
        (skip, total, i)
    }
}

pub proof fn lemma_skip_total_from(args: Seq<Seq<char>>, i: nat, skip: Option<nat>, total: Option<nat>)
    requires
        i <= args.len(),
    ensures
        i <= skip_total_from(args, i, skip, total).2 <= args.len(),
    decreases args.len() - i,
{
    if i < args.len() {
        if skip_arg(args[i as int]) is Some {
            lemma_skip_total_from(args, i + 1, skip_arg(args[i as int]), total);
        } else if total_arg(args[i as int]) is Some {
            lemma_skip_total_from(args, i + 1, skip, total_arg(args[i as int]));
        }
    }
}

/// Parse +N (skip) and -N (total) from beginning of args: the first
/// argument (the program's name) is kept, then each `+N` sets the skip
/// and each `-N` the total until another argument comes; the rest is
/// kept as it stands.
pub fn parse_skip_total(args: &[String]) -> (r: (Option<usize>, Option<usize>, Vec<String>))
    requires
        args@.len() >= 1,
    ensures
        ({
            let (skip, total, i) = skip_total_from(strings_view(args@), 1, None, None);
            &&& match r.0 {
                Some(n) => skip == Some(n as nat),
                None => skip is None,
            }
            &&& match r.1 {
                Some(n) => total == Some(n as nat),
                None => total is None,
            }
            &&& strings_view(r.2@) == seq![strings_view(args@)[0]] + strings_view(args@).skip(i as int)
        }),
{
    let ghost sv = strings_view(args@);
    let mut skip: Option<usize> = None;
    let mut total: Option<usize> = None;
    let mut i: usize = 1;
    let n = args.len();
    proof {
        lemma_skip_total_from(sv, 1, None, None);
    }
    while i < n
        invariant
            n == args@.len(),
            sv == strings_view(args@),
            1 <= i <= n,
            skip_total_from(sv, 1, None, None) == skip_total_from(
                sv,
                i as nat,
                match skip {
                    Some(k) => Some(k as nat),
                    None => None,
                },
                match total {
                    Some(k) => Some(k as nat),
                    None => None,
                },
            ),
        ensures
            1 <= i <= n,
            skip_total_from(sv, 1, None, None) == (
                match skip {
                    Some(k) => Some(k as nat),
                    None => None,
                },
                match total {
                    Some(k) => Some(k as nat),
                    None => None,
                },
                i as nat,
            ),
        decreases n - i,
    {
        let a = chars_of(args[i].as_str());
        assert(a@ == sv[i as int]);
        if a.len() > 0 && a[0] == '+' {
            let rest = vstd::slice::slice_subrange(a.as_slice(), 1, a.len());
            assert(rest@ =~= a@.skip(1));
            match parse_unsigned_chars(rest, usize::MAX as u64) {
                Some(v) => {
                    skip = Some(v as usize);
                    i += 1;
                    continue;
                },
                None => {},
            }
        }
        if a.len() > 1 && a[0] == '-' && ascii_digit(a[1]) {
            let rest = vstd::slice::slice_subrange(a.as_slice(), 1, a.len());
            assert(rest@ =~= a@.skip(1));
            match parse_unsigned_chars(rest, usize::MAX as u64) {
                Some(v) => {
                    total = Some(v as usize);
                    i += 1;
                    continue;
                },
                None => {},
            }
        }
        break;
    }
    let mut rest: Vec<String> = Vec::new();
    let first = args[0].clone();
    rest.push(first);
    assert(strings_view(rest@) =~= seq![sv[0]] + sv.subrange(i as int, i as int));
    let ghost start = i;
    while i < n
        invariant
            n == args@.len(),
            sv == strings_view(args@),
            1 <= start <= i <= n,
            strings_view(rest@) == seq![sv[0]] + sv.subrange(start as int, i as int),
        decreases n - i,
    {
        let c = args[i].clone();
        assert(c@ == sv[i as int]);
        let ghost before = rest@;
        rest.push(c);
        assert(strings_view(rest@) =~= strings_view(before).push(c@));
        assert(strings_view(rest@) =~= seq![sv[0]] + sv.subrange(start as int, i + 1));
        i += 1;
    }
    assert(sv.subrange(start as int, n as int) =~= sv.skip(start as int));
    (skip, total, rest)
}

/// A `Name: value` argument split at its first colon, the value without
/// its leading whitespace; without a colon, the whole argument is the
/// name and the value is empty.
pub open spec fn header_arg_of(s: Seq<char>) -> (Seq<char>, Seq<char>) {
    match find_char(s, ':') {
        Some(pos) => (s.take(pos as int), trim_start(s.skip(pos + 1 as int))),
        None => (s, Seq::empty()),
    }
}

/// Split a header argument into its name and value.
pub fn parse_header_arg(s: &str) -> (r: (String, String))
    ensures
        (r.0@, r.1@) == header_arg_of(s@),
{
    let v = chars_of(s);
    let n = v.len();
    match find_char_in(v.as_slice(), ':', 0) {
        Some(pos) => {
            let name = string_of_range(v.as_slice(), 0, pos);
            proof {
                lemma_skip_ws_all(v@, (pos + 1) as nat);
            }
            let a = skip_ws_from(v.as_slice(), pos + 1);
            let value = string_of_range(v.as_slice(), a, v.len());
            assert(name@ =~= v@.take(pos as int));
            assert(value@ =~= trim_start(v@.skip(pos + 1))) by {
                crate::text::lemma_skip_ws_skip(v@, (pos + 1) as nat, (pos + 1) as nat);
            }
            (name, value)
        },
        None => {
            let value = String::new();
            assert(value@ =~= Seq::<char>::empty());
            (s.to_string(), value)
        },
    }
}

} // verus!
