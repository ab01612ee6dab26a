//! The errors of the library.

use vstd::prelude::*;

verus! {

/// What can go wrong before a request is sent.
#[derive(Debug)]
pub enum Error {
    /// A parameter of the request is not acceptable. The text says why.
    InvalidParams(String),
}

} // verus!
