//! Persistent, encrypted account state for a multi-account mail-polling
//! client.
//!
//! The crate is organised in three layers, leaves first:
//!
//! * [`db`] — a bounded pool of storage-engine connections with a
//!   single-writer transaction discipline;
//! * [`state`] — the account store built on the pool: account records, a
//!   singleton settings record, and encryption of secret and proxy blobs;
//! * [`yhm`] — the orchestrator that turns stored accounts into live backend
//!   sessions and aggregates per-account poll results.
//!
//! Provider backends are collaborators: they are consumed through the traits
//! in [`backend`], never implemented here.

pub mod backend;
pub mod db;
pub mod proton;
pub mod proxy;
pub mod encryption;
pub mod state;
pub mod strutil;
pub mod yhm;
