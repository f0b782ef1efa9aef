//! Mbox folders: messages appended with `From ` lines escaped.

use vstd::prelude::*;

use crate::field::{flat, lemma_flat_push, lemma_flat_take_le, model_is_from_line, FieldList, FieldModel};

verus! {

/// `data` holds `From ` at index `i`.
pub open spec fn from_at(data: Seq<u8>, i: int) -> bool {
    0 <= i && i + 5 <= data.len() && data[i] == 70 && data[i + 1] == 114 && data[i + 2] == 111
        && data[i + 3] == 109 && data[i + 4] == 32
}

/// Index `i` starts a line of `data`.
pub open spec fn line_start(data: Seq<u8>, i: int) -> bool {
    i == 0 || (0 < i <= data.len() && data[i - 1] == 10)
}

/// The first `i` bytes of `data`, each `From ` line among them with a
/// `>` put before it.
pub open spec fn escaped_upto(data: Seq<u8>, i: int) -> Seq<u8>
    decreases i,
{
    if i <= 0 {
        Seq::empty()
    } else {
        let k = i - 1;
        let prev = escaped_upto(data, k);
        if line_start(data, k) && from_at(data, k) {
            prev.push(62u8).push(data[k])
        } else {
            prev.push(data[k])
        }
    }
}

/// `data` with `>` put before every line that starts with `From `.
pub open spec fn escaped(data: Seq<u8>) -> Seq<u8> {
    escaped_upto(data, data.len() as int)
}

/// Write data with From_ escaping: lines starting with `From ` get a
/// `>` in front.  Returns the number of bytes written.
pub fn write_escaped(w: &mut Vec<u8>, data: &[u8]) -> (r: Result<usize, ()>)
    requires
        old(w)@.len() + 2 * data@.len() <= usize::MAX,
    ensures
        final(w)@ == old(w)@ + escaped(data@),
        r == Ok::<usize, ()>(escaped(data@).len() as usize),
{
    let mut bytes: usize = 0;
    let mut at_line_start = true;
    let mut i: usize = 0;
    let n = data.len();
    while i < n
        invariant
            n == data@.len(),
            i <= n,
            w@ == old(w)@ + escaped_upto(data@, i as int),
            bytes == escaped_upto(data@, i as int).len(),
            bytes <= 2 * i,
            old(w)@.len() + 2 * n <= usize::MAX,
            w@.len() == old(w)@.len() + bytes,
            at_line_start == line_start(data@, i as int),
        decreases n - i,
    {
        let b = data[i];
        let is_from = n - i >= 5 && data[i] == 70 && data[i + 1] == 114 && data[i + 2] == 111
            && data[i + 3] == 109 && data[i + 4] == 32;
        if at_line_start && is_from {
            w.push(62);
            bytes += 1;
        }
        w.push(b);
        bytes += 1;
        assert(w@ =~= old(w)@ + escaped_upto(data@, i + 1));
        at_line_start = b == 10;
        i += 1;
    }
    Ok(bytes)
}

/// Escaping at most doubles the bytes.
pub proof fn lemma_escaped_upto_len(data: Seq<u8>, i: int)
    requires
        0 <= i,
    ensures
        escaped_upto(data, i).len() <= 2 * i,
    decreases i,
{
    if i > 0 {
        lemma_escaped_upto_len(data, i - 1);
    }
}

/// The newlines that end a message in an mbox with an empty line: none
/// after an empty line, one after a newline, two after anything else.
pub open spec fn blank_ending(body: Seq<u8>) -> Seq<u8> {
    if body.len() >= 2 && body[body.len() - 1] == 10 && body[body.len() - 2] == 10 {
        Seq::empty()
    } else if body.len() >= 1 && body[body.len() - 1] == 10 {
        seq![10u8]
    } else {
        seq![10u8, 10u8]
    }
}

/// The fields of `s`, written one after another, each escaped.
pub open spec fn escaped_fields(s: Seq<FieldModel>) -> Seq<u8>
    decreases s.len(),
{
    if s.len() == 0 {
        Seq::empty()
    } else {
        escaped_fields(s.drop_last()) + escaped(s.last().text)
    }
}

/// A message as an mbox holds it: its `From_` line (the header's own,
/// or `from_line` when the header has none), the other header fields
/// escaped, an empty line, the escaped body and, unless `raw`, the
/// newlines that end it with an empty line; a message without a header
/// is its body alone, and an empty body is one newline.
pub open spec fn mbox_text(fields: Seq<FieldModel>, body: Seq<u8>, from_line: Seq<u8>, raw: bool) -> Seq<u8> {
    (if fields.len() == 0 {
        Seq::empty()
    } else if model_is_from_line(fields[0]) {
        fields[0].text + escaped_fields(fields.skip(1))
    } else {
        from_line + escaped_fields(fields)
    }) + if body.len() == 0 {
        seq![10u8]
    } else {
        (if fields.len() > 0 {
            seq![10u8]
        } else {
            Seq::empty()
        }) + escaped(body) + if raw {
            Seq::empty()
        } else {
            blank_ending(body)
        }
    }
}

/// Lay out a message for an mbox folder: the header's `From_` line, or
/// `from_line` (a generated one, ending in a newline) when it has none,
/// then the header and body with `From ` lines escaped, and (unless
/// `raw`) the newlines that leave an empty line after the message.
pub fn mbox_frame(fields: &FieldList, body: &[u8], from_line: &[u8], raw: bool) -> (r: Vec<u8>)
    requires
        from_line@.len() + 2 * flat(fields@).len() + 2 * body@.len() + 3 <= usize::MAX,
    ensures
        r@ == mbox_text(fields@, body@, from_line@, raw),
{
    let mut out: Vec<u8> = Vec::new();
    let n = fields.len();
    let ghost head: Seq<u8>;
    if n > 0 {
        let first = fields.get(0);
        let start: usize = if first.is_from_line() {
            out.extend_from_slice(first.as_bytes());
            1
        } else {
            out.extend_from_slice(from_line);
            0
        };
        let ghost pre = out@;
        proof {
            assert(fields@.take(1).drop_last() =~= Seq::<FieldModel>::empty());
            assert(flat(fields@.take(1)) == flat(Seq::<FieldModel>::empty()) + fields@[0].text);
            assert(flat(Seq::<FieldModel>::empty()) =~= Seq::<u8>::empty());
            lemma_flat_take_le(fields@, start as int);
            assert(fields@.subrange(start as int, start as int) =~= Seq::<FieldModel>::empty());
        }
        let mut i: usize = start;
        while i < n
            invariant
                start <= i <= n,
                n == fields@.len(),
                start <= 1,
                out@ == pre + escaped_fields(fields@.subrange(start as int, i as int)),
                out@.len() <= from_line@.len() + 2 * flat(fields@.take(i as int)).len(),
                from_line@.len() + 2 * flat(fields@).len() + 2 * body@.len() + 3 <= usize::MAX,
            decreases n - i,
        {
            let f = fields.get(i);
            proof {
                let t = fields@.take(i + 1);
                assert(t =~= fields@.take(i as int).push(fields@[i as int]));
                lemma_flat_push(fields@.take(i as int), fields@[i as int]);
                lemma_flat_take_le(fields@, i + 1);
                lemma_escaped_upto_len(fields@[i as int].text, fields@[i as int].text.len() as int);
                let u = fields@.subrange(start as int, i + 1);
                assert(u.drop_last() =~= fields@.subrange(start as int, i as int));
            }
            let _ = write_escaped(&mut out, f.as_bytes());
            i += 1;
        }
        proof {
            assert(fields@.take(n as int) =~= fields@);
            if start == 1 {
                assert(fields@.subrange(1, n as int) =~= fields@.skip(1));
            } else {
                assert(fields@.subrange(0, n as int) =~= fields@);
            }
        }
    }
    proof {
        if n == 0 {
            assert(out@ =~= Seq::<u8>::empty());
        }
    }
    let ghost hd = out@;
    assert(out@.len() <= from_line@.len() + 2 * flat(fields@).len()) by {
        if n == 0 {
            assert(out@.len() == 0);
        }
    }
    let m = body.len();
    if m == 0 {
        out.push(10u8);
    } else {
        if n > 0 {
            out.push(10u8);
        }
        proof {
            lemma_escaped_upto_len(body@, body@.len() as int);
        }
        let _ = write_escaped(&mut out, body);
        if !raw {
            if m >= 2 && body[m - 1] == 10 && body[m - 2] == 10 {
            } else if body[m - 1] == 10 {
                out.push(10u8);
            } else {
                out.push(10u8);
                out.push(10u8);
            }
        }
    }
    assert(out@ =~= mbox_text(fields@, body@, from_line@, raw));
    out
}

} // verus!
