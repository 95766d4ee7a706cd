//! Persistence and domain-access layer for a desktop application that manages
//! projects.
//!
//! The heart of the crate is a single-file, lock-coordinated record store:
//! project records live in one BSON document on disk, identifiers are assigned
//! from the record count under an exclusive advisory lock, and the whole
//! document is decoded and re-encoded around every mutation.  The document
//! codec, the identifier-assignment discipline, the repository operations and
//! the input validation are all verified here; the surrounding file handling,
//! locking and async plumbing are ordinary Rust kept outside the library.

pub mod clock;
pub mod codec;
pub mod interactors;
pub mod laws;
pub mod models;
pub mod ports;
pub mod repositories;
pub mod result;
pub mod storage;
