//! Cryptographic subsystem: secret-handling primitives, password-derived key
//! management, and a self-describing encrypted container format for
//! chunk-streamed authenticated encryption of byte payloads.

pub mod crypto;
pub mod encoding;
pub mod error;
pub mod fs;
pub mod header;
pub mod keys;
pub mod primitives;
pub mod protected;
pub mod types;
pub mod util;
