//! The command line of the delivery agent: variable assignments, the
//! rcfile and its arguments, and where a relative rcfile is looked for.

use vstd::prelude::*;
use vstd::slice::slice_subrange;

use crate::config::{is_var_name_chars, spec_is_var_name};
use crate::text::{chars_of, find_char, find_char_in, string_from};

verus! {

/// `NAME=value` with a variable name before the first `=`: the name and
/// the value.
pub open spec fn assignment_arg(a: Seq<char>) -> Option<(Seq<char>, Seq<char>)> {
    match find_char(a, '=') {
        Some(eq) => if spec_is_var_name(a.take(eq as int)) {
            Some((a.take(eq as int), a.skip(eq + 1 as int)))
        } else {
            None
        },
        None => None,
    }
}

/// The assignments among `args`, in order.
pub open spec fn assignments_of(args: Seq<Seq<char>>) -> Seq<(Seq<char>, Seq<char>)>
    decreases args.len(),
{
    if args.len() == 0 {
        Seq::empty()
    } else {
        let rest = assignments_of(args.drop_last());
        match assignment_arg(args.last()) {
            Some(p) => rest.push(p),
            None => rest,
        }
    }
}

/// The arguments among `args` that are no assignment, in order.
pub open spec fn files_of(args: Seq<Seq<char>>) -> Seq<Seq<char>>
    decreases args.len(),
{
    if args.len() == 0 {
        Seq::empty()
    } else {
        let rest = files_of(args.drop_last());
        match assignment_arg(args.last()) {
            Some(_) => rest,
            None => rest.push(args.last()),
        }
    }
}

/// The views of a sequence of strings.
pub open spec fn arg_views(v: Seq<String>) -> Seq<Seq<char>> {
    v.map_values(|s: String| s@)
}

/// The views of a sequence of pairs of strings.
pub open spec fn pair_views(v: Seq<(String, String)>) -> Seq<(Seq<char>, Seq<char>)> {
    v.map_values(|p: (String, String)| (p.0@, p.1@))
}

/// The name and value of an assignment argument.
fn split_assignment(v: &[char]) -> (r: Option<(String, String)>)
    ensures
        match r {
            Some((n, val)) => assignment_arg(v@) == Some((n@, val@)),
            None => assignment_arg(v@) is None,
        },
{
    match find_char_in(v, '=', 0) {
        Some(eq) => {
            let n = v.len();
            let name = slice_subrange(v, 0, eq);
            assert(name@ =~= v@.take(eq as int));
            if is_var_name_chars(name) {
                let value = slice_subrange(v, eq + 1, n);
                assert(value@ =~= v@.skip(eq + 1 as int));
                Some((string_from(name), string_from(value)))
            } else {
                None
            }
        },
        None => None,
    }
}

/// Split trailing command-line arguments into variable assignments and
/// the rest (rcfiles and their arguments).
pub fn parse_rest(rest: &[String]) -> (r: (Vec<(String, String)>, Vec<String>))
    ensures
        pair_views(r.0@) == assignments_of(arg_views(rest@)),
        arg_views(r.1@) == files_of(arg_views(rest@)),
{
    let mut assigns: Vec<(String, String)> = Vec::new();
    let mut files: Vec<String> = Vec::new();
    let mut i: usize = 0;
    while i < rest.len()
        invariant
            i <= rest@.len(),
            pair_views(assigns@) == assignments_of(arg_views(rest@).take(i as int)),
            arg_views(files@) == files_of(arg_views(rest@).take(i as int)),
        decreases rest@.len() - i,
    {
        let ghost pre = arg_views(rest@).take(i as int);
        let ghost cur = arg_views(rest@).take(i + 1);
        assert(cur.drop_last() =~= pre);
        assert(cur.last() == rest@[i as int]@);
        let v = chars_of(rest[i].as_str());
        match split_assignment(v.as_slice()) {
            Some(p) => {
                let ghost before = assigns@;
                assigns.push(p);
                assert(pair_views(assigns@) =~= pair_views(before).push((p.0@, p.1@)));
            },
            None => {
                let ghost before = files@;
                files.push(rest[i].clone());
                assert(arg_views(files@) =~= arg_views(before).push(rest@[i as int]@));
            },
        }
        i += 1;
    }
    assert(arg_views(rest@).take(i as int) =~= arg_views(rest@));
    (assigns, files)
}

/// Index of the first argument from `i` that is no assignment: the
/// rcfile.
pub open spec fn rcfile_index(args: Seq<Seq<char>>, i: nat) -> Option<nat>
    decreases args.len() - i,
{
    if i >= args.len() {
        None
    } else if assignment_arg(args[i as int]) is None {
        Some(i)
    } else {
        rcfile_index(args, i + 1)
    }
}

/// The arguments after the rcfile (none without one).
pub open spec fn trailing_args(args: Seq<Seq<char>>) -> Seq<Seq<char>> {
    match rcfile_index(args, 0) {
        Some(k) => args.skip(k + 1 as int),
        None => Seq::empty(),
    }
}

/// The arguments that follow the rcfile on the command line.
pub fn collect_trailing_args(rest: &[String]) -> (r: Vec<String>)
    ensures
        arg_views(r@) == trailing_args(arg_views(rest@)),
{
    let ghost args = arg_views(rest@);
    let mut i: usize = 0;
    while i < rest.len()
        invariant
            i <= rest@.len(),
            args == arg_views(rest@),
            rcfile_index(args, 0) == rcfile_index(args, i as nat),
        decreases rest@.len() - i,
    {
        let v = chars_of(rest[i].as_str());
        assert(args[i as int] == rest@[i as int]@);
        if split_assignment(v.as_slice()).is_none() {
            let mut out: Vec<String> = Vec::new();
            let mut j: usize = i + 1;
            while j < rest.len()
                invariant
                    i < j <= rest@.len(),
                    args == arg_views(rest@),
                    arg_views(out@) == args.subrange(i + 1, j as int),
                decreases rest@.len() - j,
            {
                let ghost before = out@;
                let s = rest[j].clone();
                assert(args[j as int] == rest@[j as int]@);
                out.push(s);
                assert(arg_views(out@) =~= arg_views(before).push(s@));
                assert(args.subrange(i + 1, j + 1) =~= args.subrange(i + 1, j as int).push(args[j as int]));
                j += 1;
            }
            assert(args.subrange(i + 1, j as int) =~= args.skip(i + 1));
            return out;
        }
        i += 1;
    }
    let out: Vec<String> = Vec::new();
    assert(arg_views(out@) =~= Seq::<Seq<char>>::empty());
    out
}

/// Where a relative rcfile path is looked for: an absolute path, or one
/// that starts with `./`, stands as it is; any other path is taken from
/// the home directory (a `/` between them unless `home` is empty or ends
/// with one).
pub open spec fn rcpath(path: Seq<char>, home: Seq<char>) -> Seq<char> {
    if (path.len() > 0 && path[0] == '/') || (path.len() >= 2 && path[0] == '.' && path[1] == '/') {
        path
    } else if home.len() == 0 {
        path
    } else if home.last() == '/' {
        home + path
    } else {
        home + seq!['/'] + path
    }
}

/// Resolve an rcfile path against the home directory.
pub fn resolve_rcpath(path: &str, home: &str) -> (r: String)
    ensures
        r@ == rcpath(path@, home@),
{
    let p = chars_of(path);
    let h = chars_of(home);
    if (p.len() > 0 && p[0] == '/') || (p.len() >= 2 && p[0] == '.' && p[1] == '/') {
        return string_from(p.as_slice());
    }
    if h.len() == 0 {
        return string_from(p.as_slice());
    }
    let mut out = vstd::slice::slice_to_vec(h.as_slice());
    if h[h.len() - 1] != '/' {
        out.push('/');
    }
    let ghost mid = out@;
    let mut rest = vstd::slice::slice_to_vec(p.as_slice());
    out.append(&mut rest);
    string_from(out.as_slice())
}

/// Every argument is an assignment or a file, never both.
pub proof fn law_parse_rest_partitions(args: Seq<Seq<char>>)
    ensures
        assignments_of(args).len() + files_of(args).len() == args.len(),
    decreases args.len(),
{
    if args.len() > 0 {
        law_parse_rest_partitions(args.drop_last());
    }
}

} // verus!
