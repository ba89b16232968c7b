//! Domain types of the proton provider backend.
//!
//! These are the plain data carried across the provider boundary; the wire
//! protocol itself belongs to the backend implementation, not to this
//! crate.

pub mod event;
pub mod message;
pub mod user;
