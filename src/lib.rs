//! Read-only access to the FDB database format: a directory of tables,
//! each holding hash buckets of rows, all addressed by byte offsets into
//! one immutable buffer.
//!
//! - `buffer`: bounds-checked views, little-endian readers, Latin-1 strings.
//! - `mem`: the checked access mode, where every failure is a `CastError`.
//! - `align`: the trusted access mode over the same decoding.
//! - `schema`: value types and an owned, detached copy of a database.
//! - `order`: the byte order in which the table directory is sorted.
pub mod align;
pub mod buffer;
pub mod mem;
pub mod order;
pub mod schema;
