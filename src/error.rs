use vstd::prelude::*;

verus! {

/// Errors reported by the file writer.
#[derive(Debug, PartialEq, Eq)]
pub enum Error {
    /// An operation was called out of the `start`, `write`, `finish` order.
    OutOfSpec(String),
    /// A dictionary for an id was given again with other contents.
    InvalidArgumentError(String),
    /// A length or offset does not fit the integer width of the format.
    Overflow,
}

} // verus!
