//! A minimal distributed version-control engine.
//!
//! A repository stores an append-only, content-addressed graph of immutable
//! revisions and supports branching, three-way merging, and peer-to-peer
//! synchronization (clone, push, pull) without a central server.

pub mod errors;
pub mod mach;
pub mod revid;
pub mod rev;
pub mod store;
pub mod workdir;
pub mod merge;
pub mod repo;
pub mod sync;
