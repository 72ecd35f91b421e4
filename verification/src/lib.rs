//! Job-state tracking for a small media-download service.
//!
//! The library holds the in-memory registry of download jobs, the rules by
//! which records are created, finished and deleted, and the textual snapshot
//! format in which the registry is persisted.  All of it is verified; the
//! surrounding process (HTTP handling, spawning the external download tool,
//! reading and writing the snapshot file) lives outside the library and talks
//! to it through plain values.

pub mod job;
pub mod registry;
pub mod codec;
