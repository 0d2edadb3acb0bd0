//! Core of a telemetry backend for instrumented dance costumes.
//!
//! The library is organised leaf-first:
//! - [`error`]: the error taxonomy shared by every operation.
//! - [`bytes`]: small verified helpers on byte vectors.
//! - [`telemetry`]: the append-only, per-(dancer, channel) sample store.
//! - [`wire`]: the self-describing bulk payload format (upload and export).
//! - [`credentials`]: the user store with salted one-way password hashes.
//! - [`sessions`]: the session authority issuing and validating tokens.
//! - [`ingest`]: parsing and batching of bulk uploads into the store.
//! - [`export`]: re-serialisation of stored selections into the wire format.
//! - [`backend`]: the token-gated operations a server exposes.

pub mod error;
pub mod bytes;
pub mod telemetry;
pub mod wire;
pub mod credentials;
pub mod sessions;
pub mod ingest;
pub mod export;
pub mod backend;
