//! User-facing identity data of the proton provider.

use vstd::prelude::*;

verus! {

/// An API user id.
#[derive(Debug, Eq, PartialEq, Hash, Clone)]
pub struct Id(pub String);

/// A user's API key id.
#[derive(Debug, Eq, PartialEq, Hash, Clone)]
pub struct KeyId(pub String);

/// Standing of one user key.
#[derive(Copy, Clone, Eq, PartialEq, Structural, Debug)]
pub enum KeyState {
    Absent,
    Trusted,
    Active,
}

/// One API user key.
#[derive(Debug)]
pub struct Key {
    pub id: KeyId,
    pub private_key: String,
    pub token: Option<String>,
    pub signature: Option<String>,
    pub primary: bool,
    pub active: bool,
    pub flags: Option<KeyState>,
}

/// An API user.
#[derive(Debug)]
pub struct User {
    pub id: Id,
    pub name: String,
    pub display_name: String,
    pub email: String,
    pub used_space: i64,
    pub max_space: i64,
    pub max_upload: i64,
    pub credit: i64,
    pub currency: String,
    pub keys: Vec<Key>,
}

} // verus!
