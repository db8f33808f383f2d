//! The error type surfaced by the engine's fallible operations.
use vstd::prelude::*;

verus! {

/// An error carrying a human-readable message.
#[derive(Clone, Debug)]
pub struct PtError {
    /// The message text.
    pub msg: String,
}

impl PtError {
    /// Wrap a message.
    pub fn new(msg: &str) -> (r: PtError)
        ensures
            r.msg@ == msg@,
    {
        PtError { msg: msg.to_owned() }
    }

    /// The message carried by this error.
    pub fn message(&self) -> (r: &str)
        ensures
            r@ == self.msg@,
    {
        self.msg.as_str()
    }
}

} // verus!
