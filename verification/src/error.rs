//! Errors raised by the annotation system.

use vstd::prelude::*;

verus! {

/// An error with a human-readable description.
#[derive(Debug, Clone)]
pub struct Error(String);

impl Error {
    /// Wraps a description in an `Error`.
    pub fn new(description: String) -> (r: Error)
        ensures
            r@ == description@,
    {
        Error(description)
    }

    /// The error's description.
    pub fn message(&self) -> (r: &String)
        ensures
            r@ == self@,
    {
        &self.0
    }
}

impl View for Error {
    type V = Seq<char>;

    closed spec fn view(&self) -> Seq<char> {
        self.0@
    }
}

impl From<String> for Error {
    fn from(e: String) -> (r: Error)
        ensures
            r@ == e@,
    {
        Error(e)
    }
}

impl vstd::std_specs::convert::FromSpecImpl<String> for Error {
    open spec fn obeys_from_spec() -> bool {
        true
    }

    closed spec fn from_spec(e: String) -> Error {
        Error(e)
    }
}

} // verus!
