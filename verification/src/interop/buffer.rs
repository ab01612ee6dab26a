//! The byte buffers of the `bytes` crate.

use bytes::Bytes;
use vstd::prelude::*;
use vstd::utf8::encode_utf8;

verus! {

/// [`bytes::Bytes`], a handle on a shared, immutable run of bytes.
#[verifier::external_type_specification]
#[verifier::external_body]
pub struct ExBytes(bytes::Bytes);

/// The bytes that a handle gives access to, in order.
pub uninterp spec fn contents(buffer: Bytes) -> Seq<u8>;

/// `Bytes::clone` makes a second handle on the same bytes. That it points into
/// the same memory is not expressed here.
pub assume_specification[ <Bytes as Clone>::clone ](buffer: &Bytes) -> (copy: Bytes)
    ensures
        contents(copy) == contents(*buffer),
;

/// `Bytes::new` makes a handle on no bytes.
pub assume_specification[ Bytes::new ]() -> (buffer: Bytes)
    ensures
        contents(buffer) == Seq::<u8>::empty(),
;

/// `Bytes::from` takes over the UTF-8 bytes of an owned string.
pub assume_specification[ <Bytes as From<String>>::from ](s: String) -> (buffer: Bytes)
    ensures
        contents(buffer) == encode_utf8(s@),
;

/// `Bytes::from` makes a handle on the UTF-8 bytes of a static string, without
/// copying them. It is what `Into<Bytes>` does with a string literal.
pub assume_specification[ <Bytes as From<&'static str>>::from ](slice: &'static str) -> (buffer:
    Bytes)
    ensures
        contents(buffer) == encode_utf8(slice@),
;

/// `Bytes::deref` borrows the bytes as a slice.
pub assume_specification[ <Bytes as core::ops::Deref>::deref ](buffer: &Bytes) -> (slice: &[u8])
    ensures
        slice@ == contents(*buffer),
;

/// `Bytes::len` is the number of bytes.
pub assume_specification[ Bytes::len ](buffer: &Bytes) -> (n: usize)
    ensures
        n == contents(*buffer).len(),
;

/// `Bytes::is_empty` tells whether there are no bytes.
pub assume_specification[ Bytes::is_empty ](buffer: &Bytes) -> (empty: bool)
    ensures
        empty == (contents(*buffer).len() == 0),
;

} // verus!
