//! What formail writes for one message (outside duplicate checking and
//! splitting): a reply header, a log summary, extracted fields, or the
//! rewritten message.

use vstd::prelude::*;

use super::headers::{process_headers, rewriting_fits, rewritten, text_bytes, Args};
use super::output::{
    extracted, from_line_for, from_line_text, log_subject_cuttable, log_summary, log_summary_text,
    output_extracted,
};
use super::read_headers;
use super::reply::{generate_reply, reply_fields};
use super::sender::{senders_ok, senders_readable};
use super::split::{output_body, quoted_from, Quote};
use crate::field::{body_part, flat, header_part, model_is_from_line, parsed_fields, FieldList, FieldModel};

verus! {

/// How formail writes a message, besides the header rewriting of `Args`.
#[derive(Debug, Default)]
pub struct OutputOpts {
    /// `-k`: keep the body after a reply header.
    pub keep_body: bool,
    /// `-l folder`: write a log summary for this folder instead.
    pub log: Option<String>,
    /// `-f`: add no `From_` line.
    pub force: bool,
    /// `-b`: quote no body line.
    pub no_escape: bool,
    /// `-p prefix`: the quotation prefix (`>` when not given).
    pub prefix: Option<Vec<u8>>,
}

/// Why formail writes nothing for a message.
#[derive(Debug, PartialEq, Eq, Clone, Copy, Structural)]
pub enum FormailError {
    /// A sender field that the reply or the `From_` line needs is not
    /// UTF-8.
    UnreadableSenders,
    /// The reply header passes the machine's size limit.
    ReplyTooLarge,
    /// `-R` was given an odd number of names.
    UnpairedRename,
    /// The log summary would cut the subject inside a character.
    SubjectCut,
}

/// The quotation prefix.
pub open spec fn prefix_of(o: OutputOpts) -> Seq<u8> {
    match o.prefix {
        Some(p) => p@,
        None => seq![62u8],
    }
}

/// The body, quoted as `q` says, and a newline after it when it is not
/// empty.
pub open spec fn body_text(body: Seq<u8>, q: Quote, prefix: Seq<u8>) -> Seq<u8> {
    quoted_from(body, 0, q, prefix) + if body.len() > 0 {
        seq![10u8]
    } else {
        Seq::empty()
    }
}

/// A rewritten header lacks its `From_` line and may get one.
pub open spec fn needs_from(o: OutputOpts, s: Seq<FieldModel>) -> bool {
    !o.force && s.len() > 0 && !model_is_from_line(s[0])
}

/// The reply to a message with header `fields` and body `body`: the
/// reply header, an empty line and (with `-k`) the body with every line
/// quoted (none with `-b`).
pub open spec fn reply_output_of(a: Args, o: OutputOpts, fields: Seq<FieldModel>, body: Seq<u8>) -> Result<Seq<u8>, FormailError> {
    if !senders_readable(fields) {
        Err(FormailError::UnreadableSenders)
    } else if flat(reply_fields(a, fields)).len() + 3 > usize::MAX {
        Err(FormailError::ReplyTooLarge)
    } else {
        Ok(
            flat(reply_fields(a, fields)) + seq![10u8] + if o.keep_body {
                body_text(body, if o.no_escape { Quote::Never } else { Quote::All }, prefix_of(o))
            } else {
                Seq::empty()
            },
        )
    }
}

/// What formail writes of a message once its header is rewritten to
/// `f2`: with `-l` the log summary of the message's size (header, empty
/// line, body and a closing empty line); with `-x`/`-X` the extracted
/// fields; else a `From_` line if one is needed, the header, an empty
/// line and the body with `From ` lines quoted (none with `-b`).
pub open spec fn rewritten_output_of(a: Args, o: OutputOpts, f2: Seq<FieldModel>, body: Seq<u8>, timestamp: Seq<char>) -> Result<Seq<u8>, FormailError> {
    match o.log {
        Some(folder) => if log_subject_cuttable(f2) {
            Ok(log_summary_text(folder@, f2, flat(f2).len() + 1 + body.len() + 1))
        } else {
            Err(FormailError::SubjectCut)
        },
        None => if a.extract@.len() > 0 || a.extract_keep@.len() > 0 {
            Ok(extracted(a, f2))
        } else if needs_from(o, f2) && !senders_readable(f2) {
            Err(FormailError::UnreadableSenders)
        } else {
            Ok(
                (if needs_from(o, f2) {
                    from_line_text(f2, timestamp)
                } else {
                    Seq::empty()
                }) + flat(f2) + seq![10u8] + body_text(
                    body,
                    if o.no_escape { Quote::Never } else { Quote::From },
                    prefix_of(o),
                ),
            )
        },
    }
}

/// What formail writes for the message `input`, `message_id` being the
/// id that `-a Message-ID:` adds and `timestamp` the date of a new
/// `From_` line: with `-r` the reply; else, unless the `-R` list is odd,
/// what it writes of the rewritten header.
pub open spec fn formail_output_of(
    a: Args,
    o: OutputOpts,
    input: Seq<u8>,
    message_id: Seq<char>,
    timestamp: Seq<char>,
) -> Result<Seq<u8>, FormailError> {
    let fields = parsed_fields(header_part(input));
    let body = body_part(input);
    if a.reply {
        reply_output_of(a, o, fields, body)
    } else if a.rename@.len() % 2 != 0 {
        Err(FormailError::UnpairedRename)
    } else {
        rewritten_output_of(a, o, rewritten(a, fields, text_bytes(message_id)), body, timestamp)
    }
}

/// What the machine's limits let formail write for the message: the
/// message and the text made of it fit in memory.
pub open spec fn output_fits(
    a: Args,
    o: OutputOpts,
    input: Seq<u8>,
    message_id: Seq<char>,
    timestamp: Seq<char>,
) -> bool {
    let fields = parsed_fields(header_part(input));
    let body = body_part(input);
    let quoted_max = body.len() * (prefix_of(o).len() + 1);
    &&& input.len() + 1 <= usize::MAX
    &&& (a.reply ==> flat(reply_fields(a, fields)).len() + 3 + quoted_max <= usize::MAX)
    &&& (!a.reply ==> rewriting_fits(a, fields, text_bytes(message_id)))
    &&& (!a.reply ==> {
        let f2 = rewritten(a, fields, text_bytes(message_id));
        &&& flat(f2).len() + body.len() + 2 <= usize::MAX
        &&& from_line_text(f2, timestamp).len() + flat(f2).len() + 1 + quoted_max + 1 <= usize::MAX
    })
}

/// The quotation prefix, as bytes.
fn prefix_bytes(o: &OutputOpts) -> (r: Vec<u8>)
    ensures
        r@ == prefix_of(*o),
{
    match &o.prefix {
        Some(p) => p.clone(),
        None => {
            let v: Vec<u8> = vec![62u8];
            assert(v@ =~= seq![62u8]);
            v
        },
    }
}

/// Write the reply to a message.
fn reply_output(a: &Args, o: &OutputOpts, fields: &FieldList, body: &[u8]) -> (r: Result<Vec<u8>, FormailError>)
    requires
        fields.wf(),
        flat(reply_fields(*a, fields@)).len() + 3 + body@.len() * (prefix_of(*o).len() + 1) <= usize::MAX,
    ensures
        match r {
            Ok(v) => reply_output_of(*a, *o, fields@, body@) == Ok::<Seq<u8>, FormailError>(v@),
            Err(e) => reply_output_of(*a, *o, fields@, body@) == Err::<Seq<u8>, FormailError>(e),
        },
{
    if !senders_ok(fields) {
        return Err(FormailError::UnreadableSenders);
    }
    let reply = match generate_reply(a, fields) {
        Some(l) => l,
        None => {
            return Err(FormailError::ReplyTooLarge);
        },
    };
    let mut out: Vec<u8> = Vec::new();
    let _ = reply.write_to(&mut out);
    out.push(10u8);
    let ghost head = out@;
    assert(head =~= flat(reply_fields(*a, fields@)) + seq![10u8]);
    if o.keep_body {
        let prefix = prefix_bytes(o);
        let q = if o.no_escape {
            Quote::Never
        } else {
            Quote::All
        };
        if output_body(body, &mut out, q, prefix.as_slice()) {
            out.push(10u8);
        }
        assert(out@ =~= head + body_text(body@, q, prefix@));
    } else {
        assert(out@ =~= head + Seq::<u8>::empty());
    }
    Ok(out)
}

/// Write what formail writes of a message whose header is rewritten.
fn rewritten_output(a: &Args, o: &OutputOpts, fields: &FieldList, body: &[u8], timestamp: &str) -> (r: Result<Vec<u8>, FormailError>)
    requires
        fields.wf(),
        flat(fields@).len() + body@.len() + 2 <= usize::MAX,
        from_line_text(fields@, timestamp@).len() + flat(fields@).len() + 1 + body@.len() * (
        prefix_of(*o).len() + 1) + 1 <= usize::MAX,
    ensures
        match r {
            Ok(v) => rewritten_output_of(*a, *o, fields@, body@, timestamp@) == Ok::<Seq<u8>, FormailError>(v@),
            Err(e) => rewritten_output_of(*a, *o, fields@, body@, timestamp@) == Err::<Seq<u8>, FormailError>(e),
        },
{
    let ghost f2 = fields@;
    match &o.log {
        Some(folder) => {
            let total = fields.byte_len() + 1 + body.len() + 1;
            match log_summary(folder.as_str(), fields, total) {
                Some(v) => Ok(v),
                None => Err(FormailError::SubjectCut),
            }
        },
        None => {
            let mut out: Vec<u8> = Vec::new();
            if a.extract.len() > 0 || a.extract_keep.len() > 0 {
                output_extracted(a, fields, &mut out);
                assert(out@ =~= extracted(*a, f2));
                return Ok(out);
            }
            let need_from = !o.force && fields.len() > 0 && !fields.get(0).is_from_line();
            assert(need_from == needs_from(*o, f2));
            if need_from {
                if !senders_ok(fields) {
                    return Err(FormailError::UnreadableSenders);
                }
                let fl = from_line_for(fields, timestamp);
                out.extend_from_slice(fl.as_slice());
            }
            let ghost start = out@;
            assert(start =~= if need_from {
                from_line_text(f2, timestamp@)
            } else {
                Seq::empty()
            });
            let _ = fields.write_to(&mut out);
            out.push(10u8);
            let ghost head = out@;
            let prefix = prefix_bytes(o);
            let q = if o.no_escape {
                Quote::Never
            } else {
                Quote::From
            };
            if output_body(body, &mut out, q, prefix.as_slice()) {
                out.push(10u8);
            }
            assert(out@ =~= head + body_text(body@, q, prefix@));
            assert(out@ =~= start + flat(f2) + seq![10u8] + body_text(body@, q, prefix@));
            Ok(out)
        },
    }
}

/// Write what formail writes for the message `input` (see
/// `formail_output_of`).
pub fn formail_output(
    a: &Args,
    o: &OutputOpts,
    input: &[u8],
    message_id: &str,
    timestamp: &str,
) -> (r: Result<Vec<u8>, FormailError>)
    requires
        output_fits(*a, *o, input@, message_id@, timestamp@),
    ensures
        match r {
            Ok(v) => formail_output_of(*a, *o, input@, message_id@, timestamp@) == Ok::<
                Seq<u8>,
                FormailError,
            >(v@),
            Err(e) => formail_output_of(*a, *o, input@, message_id@, timestamp@) == Err::<
                Seq<u8>,
                FormailError,
            >(e),
        },
{
    let (mut fields, body) = match read_headers(input) {
        Ok(p) => p,
        Err(_) => {
            return Err(FormailError::UnreadableSenders);
        },
    };
    if a.reply {
        return reply_output(a, o, &fields, body.as_slice());
    }
    if process_headers(a, &mut fields, message_id).is_err() {
        return Err(FormailError::UnpairedRename);
    }
    rewritten_output(a, o, &fields, body.as_slice(), timestamp)
}

} // verus!
