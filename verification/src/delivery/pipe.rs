//! Delivery through a pipe to a command.

use vstd::prelude::*;

use super::DeliveryResult;

verus! {

/// Result of pipe delivery.
#[derive(Debug)]
pub struct PipeResult {
    /// Bytes written to command.
    pub bytes: usize,
    /// Captured stdout if filter mode.
    pub output: Option<Vec<u8>>,
}

impl PipeResult {
    /// The delivery result of a pipe: its byte count, and `|command` for
    /// the path.
    pub fn into_delivery(self) -> (r: DeliveryResult)
        ensures
            r.bytes == self.bytes,
            r.path@ == "|command"@,
    {
        DeliveryResult { bytes: self.bytes, path: "|command".to_string() }
    }
}

} // verus!
