//! Request bodies for queries that carry external data.
//!
//! [`external_data`] builds the `multipart/form-data` body of a query that
//! brings temporary tables along, and [`request_body`] hands a body out frame
//! by frame. [`layout`] states what such a body looks like. What holds of the
//! bodies as a whole is proved in [`boundary_laws`], [`read_back`] and
//! [`stream_laws`]. What a caller can count on, call by call, is proved in
//! [`table_laws`] and [`body_laws`]. The functions of other crates that the library
//! calls are described in [`interop`].

pub mod body_laws;
pub mod boundary_laws;
pub mod error;
pub mod external_data;
pub mod interop;
pub mod layout;
pub mod read_back;
pub mod request_body;
pub mod settings;
pub mod stream_laws;
pub mod table_laws;
pub mod text;
