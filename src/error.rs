//! The error value handed out where a plain description is wanted.
use vstd::prelude::*;

verus! {

/// An error that carries only a human-readable description.
#[derive(Debug)]
pub struct GenericError {
    pub description: String,
}

impl GenericError {
    /// Wraps a description.
    pub fn new(description: String) -> (r: Self)
        ensures
            r.description@ == description@,
    {
        GenericError { description }
    }

    /// The description, as the error's display text.
    pub fn to_string(&self) -> (r: String)
        ensures
            r@ == self.description@,
    {
        self.description.clone()
    }
}

} // verus!
