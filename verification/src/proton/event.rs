//! Event-stream requests of the proton provider.

use vstd::prelude::*;

verus! {

use vstd::string::StringExecFns;

/// An event stream position id.
#[derive(Debug, Eq, PartialEq, Hash, Clone)]
pub struct Id(pub String);

/// Answer to a latest-event-id request.
#[derive(Debug)]
pub struct GetLatestEventResponse {
    pub event_id: Id,
}

/// Answer to a latest-event-id request, as the session layer hands it out.
#[derive(Debug)]
pub struct LatestEventResponse {
    pub event_id: Id,
}

/// Request for the id of the latest event.
#[derive(Copy, Clone)]
pub struct GetLatestEventRequest;

impl GetLatestEventRequest {
    /// The request's path.
    pub fn url(&self) -> (r: String)
        ensures
            r@ == "core/v4/events/latest"@,
    {
        "core/v4/events/latest".to_owned()
    }
}

/// Request for the events that follow `event_id`.
pub struct GetEventRequest<'a> {
    pub event_id: &'a Id,
}

impl<'a> GetEventRequest<'a> {
    /// Build a request for the events that follow `id`.
    pub fn new(id: &'a Id) -> (r: GetEventRequest<'a>)
        ensures
            r.event_id == id,
    {
        GetEventRequest { event_id: id }
    }

    /// The request's path.
    pub fn url(&self) -> (r: String)
        ensures
            r@ == "core/v4/events/"@ + self.event_id.0@,
    {
        let mut s = "core/v4/events/".to_owned();
        s.append(self.event_id.0.as_str());
        s
    }
}

} // verus!
