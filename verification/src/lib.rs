//! A matchmaking and presence registry for small multiplayer game sessions.
//!
//! All mutable state is a single list of sessions that an external key-value
//! store holds as one opaque blob. The registry owns the in-memory list for
//! the duration of one request: the caller fetches the blob, decodes it,
//! invokes the operations here, encodes the result and writes it back.
//!
//! The modules:
//! - [`model`]: the data types, their views and the well-formedness invariant;
//! - [`registry`]: identifier and slot allocation, matchmaking, liveness
//!   pruning, renames and ping ingestion;
//! - [`pops`]: latency-driven selection of a network point of presence;
//! - [`codec`]: the byte encoding of the session list, with a proved
//!   round trip.

pub mod codec;
pub mod model;
pub mod pops;
pub mod registry;
