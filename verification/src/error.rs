//! The error an identifier reports: a message saying what could not be read.

use vstd::prelude::*;

verus! {

/// Why an arrival could not be read: the message says what, and of which text.
#[derive(Clone, Debug)]
pub struct IdentifyError {
    message: String,
}

impl View for IdentifyError {
    type V = Seq<char>;

    closed spec fn view(&self) -> Seq<char> {
        self.message@
    }
}

impl IdentifyError {
    /// An error with this message.
    pub fn new(message: String) -> (e: Self)
        ensures
            e@ == message@,
    {
        IdentifyError { message }
    }

    /// The message.
    pub fn message(&self) -> (m: &str)
        ensures
            m@ == self@,
    {
        self.message.as_str()
    }

    /// The message as a `String`, the text the error displays.
    pub fn to_string(&self) -> (s: String)
        ensures
            s@ == self@,
    {
        self.message.clone()
    }
}

} // verus!
