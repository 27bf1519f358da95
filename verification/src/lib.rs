//! Core of a chunked file-transfer service.
//!
//! Clients download files in fixed-size chunks, base64-encoded, and upload
//! files by reserving a destination name, appending base64-encoded chunks
//! against a reservation token, and committing. This crate holds the
//! verified core: the chunk codec, the quota decision, and the reservation
//! registry with its lifecycle. Filesystem facts (whether a path exists, the
//! measured size of the storage root) enter as plain arguments; the I/O
//! shell around the core supplies them and carries out the returned
//! decisions.

pub mod codec;
pub mod config;
pub mod endpoints;
pub mod errors;
pub mod quota;
pub mod registry;
