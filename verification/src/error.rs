//! The error a source reports when a read fails.

use vstd::prelude::*;

verus! {

/// A failure reported by a source's read operation.
///
/// The composite reader never creates one of these itself: it only relays,
/// unchanged, whatever error the currently active source reported.
#[derive(Debug)]
pub struct ReadError {
    message: String,
}

impl View for ReadError {
    type V = Seq<char>;

    closed spec fn view(&self) -> Seq<char> {
        self.message@
    }
}

impl ReadError {
    /// Wraps a message into an error value.
    pub fn new(message: String) -> (e: ReadError)
        ensures
            e@ == message@,
    {
        ReadError { message }
    }

    /// The message this error carries.
    pub fn message(&self) -> (m: &String)
        ensures
            m@ == self@,
    {
        &self.message
    }
}

} // verus!
