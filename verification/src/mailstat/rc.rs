//! `~/.mailstatrc`: folders to leave out of the report, and the date
//! format of the "no mail" line.

use vstd::prelude::*;
use vstd::slice::slice_subrange;
use vstd::utf8::{decode_utf8, valid_utf8};

use super::log::{lemma_raw_lines_len, line_at, raw_lines};
use crate::config::strings_view;
use crate::formail::split::{lemma_newline_from, newline_from};
use crate::text::{chars_of, occurs_at, occurs_at_exec, str_from_utf8, string_from, trim, trim_bounds};

verus! {

/// What `~/.mailstatrc` says.
#[derive(Debug, Default)]
pub struct RcConfig {
    /// Folders left out of the report, each once.
    pub ignores: Vec<String>,
    /// The date format of the "no mail" line, if one was given.
    pub date_fmt: Option<String>,
    /// The numbers (from 1) of the lines that hold no known command.
    pub unknown: Vec<usize>,
}

/// `ignore `, `date_format `.
pub open spec fn ignore_cmd() -> Seq<char> {
    seq!['i', 'g', 'n', 'o', 'r', 'e', ' ']
}

pub open spec fn date_format_cmd() -> Seq<char> {
    seq!['d', 'a', 't', 'e', '_', 'f', 'o', 'r', 'm', 'a', 't', ' ']
}

/// The model of the settings: ignored folders, date format, unknown
/// lines.
pub open spec fn rc_view(c: RcConfig) -> (Seq<Seq<char>>, Option<Seq<char>>, Seq<usize>) {
    (strings_view(c.ignores@), match c.date_fmt {
        Some(s) => Some(s@),
        None => None,
    }, c.unknown@)
}

/// The settings after line number `n` (from 1) of the file: trimmed, an
/// empty line says nothing; `ignore X` adds folder `X` (once);
/// `date_format F` sets the format (the last one wins); anything else is
/// an unknown command.  Lines that are no UTF-8 say nothing.
pub open spec fn rc_step(st: (Seq<Seq<char>>, Option<Seq<char>>, Seq<usize>), line: Seq<u8>, n: usize) -> (
    Seq<Seq<char>>,
    Option<Seq<char>>,
    Seq<usize>,
) {
    if !valid_utf8(line) {
        st
    } else {
        let t = trim(decode_utf8(line));
        if t.len() == 0 {
            st
        } else if occurs_at(t, ignore_cmd(), 0) {
            let arg = t.skip(7);
            if st.0.contains(arg) {
                st
            } else {
                (st.0.push(arg), st.1, st.2)
            }
        } else if occurs_at(t, date_format_cmd(), 0) {
            (st.0, Some(t.skip(12)), st.2)
        } else {
            (st.0, st.1, st.2.push(n))
        }
    }
}

/// The settings after the lines `ls`.
pub open spec fn rc_of(ls: Seq<Seq<u8>>) -> (Seq<Seq<char>>, Option<Seq<char>>, Seq<usize>)
    decreases ls.len(),
{
    if ls.len() == 0 {
        (Seq::empty(), None, Seq::empty())
    } else {
        rc_step(rc_of(ls.drop_last()), ls.last(), ls.len() as usize)
    }
}

/// Whether `name` is among `v`.
fn holds(v: &Vec<String>, name: &String) -> (b: bool)
    ensures
        b == strings_view(v@).contains(name@),
{
    let mut i: usize = 0;
    while i < v.len()
        invariant
            i <= v@.len(),
            forall|j: int| 0 <= j < i ==> v@[j]@ != name@,
        decreases v@.len() - i,
    {
        if v[i] == *name {
            assert(strings_view(v@)[i as int] == name@);
            return true;
        }
        i += 1;
    }
    assert forall|j: int| 0 <= j < strings_view(v@).len() implies strings_view(v@)[j] != name@ by {
        assert(strings_view(v@)[j] == v@[j]@);
    }
    false
}

/// Read the settings from the bytes of `~/.mailstatrc`.
pub fn parse_rc(input: &[u8]) -> (r: RcConfig)
    ensures
        rc_view(r) == rc_of(raw_lines(input@, 0)),
{
    let ghost all = raw_lines(input@, 0);
    let mut rc = RcConfig { ignores: Vec::new(), date_fmt: None, unknown: Vec::new() };
    let ign: [char; 7] = ['i', 'g', 'n', 'o', 'r', 'e', ' '];
    let dfc: [char; 12] = ['d', 'a', 't', 'e', '_', 'f', 'o', 'r', 'm', 'a', 't', ' '];
    assert(ign@ =~= ignore_cmd());
    assert(dfc@ =~= date_format_cmd());
    let n = input.len();
    let mut i: usize = 0;
    let mut k: usize = 0;
    proof {
        lemma_raw_lines_len(input@, 0);
        assert(all.take(0) =~= Seq::<Seq<u8>>::empty());
        assert(all.skip(0) =~= all);
        assert(rc_view(rc) =~~= rc_of(all.take(0)));
    }
    while i < n
        invariant
            n == input@.len(),
            i <= n,
            k <= i,
            k <= all.len(),
            all == raw_lines(input@, 0),
            all.skip(k as int) == raw_lines(input@, i as nat),
            rc_view(rc) == rc_of(all.take(k as int)),
            ign@ == ignore_cmd(),
            dfc@ == date_format_cmd(),
        decreases n - i,
    {
        let mut e = i;
        while e < n && input[e] != 10u8
            invariant
                n == input@.len(),
                i <= e <= n,
                newline_from(input@, i as nat) == newline_from(input@, e as nat),
            decreases n - e,
        {
            e += 1;
        }
        proof {
            lemma_newline_from(input@, i as nat);
        }
        let seg0 = slice_subrange(input, i, e);
        let seg = if e < n && seg0.len() > 0 && seg0[seg0.len() - 1] == 13u8 {
            slice_subrange(seg0, 0, seg0.len() - 1)
        } else {
            seg0
        };
        assert(seg@ =~= line_at(input@, i as int, e as int));
        assert(raw_lines(input@, i as nat).len() > 0);
        assert(all[k as int] == seg@) by {
            assert(all.skip(k as int)[0] == all[k as int]);
        }
        assert(all.take(k + 1).drop_last() =~= all.take(k as int));
        match str_from_utf8(seg) {
            Some(s) => {
                let v = chars_of(s);
                let (a, b) = trim_bounds(v.as_slice());
                let t = slice_subrange(v.as_slice(), a, b);
                if t.len() == 0 {
                } else if occurs_at_exec(t, ign.as_slice(), 0) {
                    let arg = string_from(slice_subrange(t, 7, t.len()));
                    assert(arg@ =~= t@.skip(7));
                    if !holds(&rc.ignores, &arg) {
                        rc.ignores.push(arg);
                        assert(strings_view(rc.ignores@) =~= rc_of(all.take(k as int)).0.push(t@.skip(7)));
                    }
                } else if occurs_at_exec(t, dfc.as_slice(), 0) {
                    let f = string_from(slice_subrange(t, 12, t.len()));
                    assert(f@ =~= t@.skip(12));
                    rc.date_fmt = Some(f);
                } else {
                    rc.unknown.push(k + 1);
                }
            },
            None => {},
        }
        assert(rc_view(rc) =~~= rc_of(all.take(k + 1)));
        proof {
            if e < n {
                assert(raw_lines(input@, i as nat).drop_first() == raw_lines(input@, (e + 1) as nat));
            } else {
                assert(raw_lines(input@, i as nat).drop_first() =~= Seq::<Seq<u8>>::empty());
            }
            assert(all.skip(k + 1) =~= all.skip(k as int).drop_first());
        }
        k = k + 1;
        if e >= n {
            i = n;
            proof {
                assert(raw_lines(input@, n as nat) =~= Seq::<Seq<u8>>::empty());
            }
        } else {
            i = e + 1;
        }
    }
    proof {
        lemma_raw_lines_len(input@, i as nat);
        assert(all.skip(k as int).len() == 0);
        assert(all.take(k as int) =~= all);
    }
    rc
}

} // verus!
