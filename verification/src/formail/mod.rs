//! Formail: header rewriting, reply generation and mailbox splitting.

use vstd::prelude::*;

pub mod address;
pub mod args;
pub mod headers;
pub mod output;
pub mod reply;
pub mod run;
pub mod sender;
pub mod split;

use crate::field::{body_part, header_part, parsed_fields, FieldList};

verus! {

/// Read a message's header fields and body from its bytes: the header
/// ends at the first empty line.
pub fn read_headers(input: &[u8]) -> (r: Result<(FieldList, Vec<u8>), ()>)
    requires
        input@.len() + 1 <= usize::MAX,
    ensures
        r matches Ok((fields, body)) ==> fields@ == parsed_fields(header_part(input@)) && fields.wf()
            && body@ == body_part(input@),
        r is Ok,
{
    Ok(crate::field::read_headers(input))
}

} // verus!
