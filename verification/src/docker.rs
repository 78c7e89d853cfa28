//! Shapes of the container runtime's line-oriented reports: a usage event
//! and a disk-usage record, as decoded by the collaborator that talks to
//! the runtime.

use vstd::prelude::*;

verus! {

/// A container-runtime event (one line of the runtime's event stream).
#[derive(Clone, Debug, PartialEq, Eq)]
pub struct Event {
    pub event_type: String,
    pub action: String,
    pub actor: EventActor,
}

/// The actor of a container-runtime event.
#[derive(Clone, Debug, PartialEq, Eq)]
pub struct EventActor {
    pub attributes: EventActorAttributes,
}

/// The attributes of a container-runtime event actor.
#[derive(Clone, Debug, PartialEq, Eq)]
pub struct EventActorAttributes {
    pub image: String,
}

/// One line of the runtime's disk-usage report.
#[derive(Clone, Debug, PartialEq, Eq)]
pub struct SpaceRecord {
    pub record_type: String,
    pub size: String,
}

} // verus!
