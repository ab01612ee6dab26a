//! The body types of the `hyper` crate.

use bytes::Bytes;
use hyper::body::{Frame, SizeHint};
use vstd::prelude::*;

verus! {

/// [`hyper::body::Frame`], one frame of an HTTP body: data or trailers.
#[verifier::external_type_specification]
#[verifier::external_body]
#[verifier::reject_recursive_types(T)]
pub struct ExFrame<T>(hyper::body::Frame<T>);

/// The buffer that a data frame holds, or `None` for a frame of trailers.
pub uninterp spec fn frame_data(frame: Frame<Bytes>) -> Option<Bytes>;

/// `Frame::data` makes a data frame that holds the buffer.
#[verifier::external_body]
pub(crate) fn data_frame(buffer: Bytes) -> (frame: Frame<Bytes>)
    ensures
        frame_data(frame) == Some(buffer),
{
    Frame::data(buffer)
}

/// [`hyper::body::SizeHint`], bounds on how many bytes a body still yields.
#[verifier::external_type_specification]
#[verifier::external_body]
pub struct ExSizeHint(hyper::body::SizeHint);

/// The lower bound of a hint, and its upper bound where it has one.
pub uninterp spec fn size_bounds(hint: SizeHint) -> (u64, Option<u64>);

/// `SizeHint::with_exact` sets both bounds to the value.
pub assume_specification[ SizeHint::with_exact ](value: u64) -> (hint: SizeHint)
    ensures
        size_bounds(hint) == (value, Some(value)),
;

/// `SizeHint::default` has the lower bound 0 and no upper bound.
pub assume_specification[ <SizeHint as Default>::default ]() -> (hint: SizeHint)
    ensures
        size_bounds(hint) == (0u64, None::<u64>),
;

} // verus!
