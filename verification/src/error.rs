//! The errors of the library.

use vstd::prelude::*;

use crate::urls::UrlError;

verus! {

/// Why no URL can be generated.
#[derive(Clone, Copy, Debug, PartialEq, Eq, Structural)]
pub enum UrlGenerationError {
    /// No resource has the name.
    ResourceNotFound,
    /// The pattern has more parameters than there are values.
    NotEnoughElements,
    /// What was generated is not a URL.
    ParseError(UrlError),
}

/// A pattern whose expression does not compile.
#[derive(Debug)]
pub struct PatternError {
    /// The reason.
    pub error: regex::Error,
}

} // verus!
