//! The error type surfaced by the library's fallible entry points.

use vstd::prelude::*;

verus! {

/// An error carrying a human-readable message.
///
/// The parting detection itself is a total function over well-formed input
/// and never produces one; the type exists so that drivers share a single
/// error surface with the layers around the library.
#[derive(Debug, Clone)]
pub struct Error(pub String);

impl Error {
    /// The message carried by this error.
    pub fn message(&self) -> (m: &String)
        ensures
            m@ == self.0@,
    {
        &self.0
    }
}

} // verus!
