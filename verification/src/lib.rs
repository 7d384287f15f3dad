//! Client library for an editor-side command dispatcher that talks to a
//! local analysis daemon over HTTP with JSON payloads.
//!
//! The crate owns the wire format (a JSON codec with a proved
//! serialize/parse round trip), the request builders for the daemon's
//! `index` and `query` operations, the response-envelope interpretation,
//! and the per-invocation dispatch state machine. The HTTP exchange itself
//! is left to the embedding host.

pub mod client;
pub mod dispatch;
pub mod json;
pub mod parse;
pub mod text;
