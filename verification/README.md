# clickhouse

Request bodies for ClickHouse queries that carry external data: temporary
tables that travel with a query as parts of a `multipart/form-data` body.

- `src/external_data.rs` checks the tables, picks a boundary and builds the body.
- `src/request_body.rs` hands a body out frame by frame, also one that is sent
  while it comes into being.
- `src/layout.rs` states what a body looks like.
- `src/boundary_laws.rs`, `src/read_back.rs` and `src/stream_laws.rs` prove what
  holds of the whole: a usable boundary is always found, a body reads back as
  what was sent, the frames of a body come out complete and in order, and so do
  the chunks of one that is sent while it comes into being.
- `src/interop/` describes the functions of other crates and of `std` that the
  library calls. The proofs rest on these descriptions.
- `app/` holds the `hyper` body and the code that waits.
