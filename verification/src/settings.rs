//! Names that requests to the server use.

use vstd::prelude::*;

verus! {

/// The form field that carries the SQL text.
pub const QUERY: &'static str = "query";

} // verus!
