//! An in-memory key/value cache speaking a small line-based text protocol.
//!
//! The crate verifies the protocol engine: header parsing and request
//! classification, a chunked-transfer codec for large values, and the shared
//! store with lazy time-based expiry.  Socket handling lives outside the
//! library; the functions here compute responses from plain values.

pub mod clock;
pub mod codec;
pub mod laws;
pub mod protocol;
pub mod store;
pub mod text;
