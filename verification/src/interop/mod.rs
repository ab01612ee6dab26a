//! What the library takes from other crates and from `std`, with the contracts
//! that its proofs rest on.

pub mod buffer;
pub mod channel;
pub mod http;
pub mod search;
pub mod string;
