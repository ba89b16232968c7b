//! Collaborator contracts of provider backends.
//!
//! A backend is a pluggable provider implementation consumed, never
//! implemented, by this crate: it authenticates, builds clients bound to a
//! proxy configuration, and opens live polling sessions.  The orchestrator
//! resolves backends by their unique name with an exact match.

use vstd::prelude::*;

verus! {

use crate::proxy::ProxyConfig;
use crate::state::Account;

/// One new message seen while polling.
#[derive(Debug)]
pub struct NewEmail {
    /// Who sent the message.
    pub sender: String,
    /// The message's subject line.
    pub subject: String,
}

/// Errors of backend work; what a provider reports is opaque to this crate.
#[derive(Debug)]
pub enum BackendError {
    /// No registered backend bears the account's backend name.
    UnknownBackend(String),
    /// The backend could not rebuild a session from the persisted state.
    UnknownBackendState,
    /// Reading the account's stored blobs failed.
    State(crate::state::Error),
    /// The provider reported a failure, in its own words.
    Request(String),
}

/// A provider backend: a named capability set from which clients and live
/// polling sessions are built.
pub trait Backend {
    /// What `create_client` builds.
    type Client;

    /// The live session type this backend polls with.
    type Session: Poller;

    /// The backend's unique name; lookup is exact-match.
    fn name(&self) -> &str;

    /// Build a client bound to the given proxy configuration.
    fn create_client(&self, proxy: Option<ProxyConfig>) -> Result<Self::Client, BackendError>;

    /// Build a live poller for `account` from `client`; fails with an
    /// unknown-backend-state error when the persisted state cannot seed a
    /// session.
    fn new_poller(&self, client: Self::Client, account: &Account) -> Result<
        Self::Session,
        BackendError,
    >;
}

/// A live, backend-specific session.
pub trait Poller {
    /// Check for new mail since the last check.
    fn check(&mut self) -> Result<Vec<NewEmail>, BackendError>;

    /// Log the session out on the remote side.
    fn logout(&mut self) -> Result<(), BackendError>;
}

} // verus!
