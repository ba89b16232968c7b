//! Message data of the proton provider.

use vstd::prelude::*;

verus! {

/// A message API id.
#[derive(Debug, Eq, PartialEq, Hash, Clone)]
pub struct Id(pub String);

/// One email message as the provider reports it.
#[derive(Debug, Eq, PartialEq, Clone)]
pub struct Message {
    pub id: Id,
    pub labels: Vec<String>,
    pub subject: String,
    pub sender_address: String,
    pub sender_name: Option<String>,
    pub unread: bool,
}

} // verus!
