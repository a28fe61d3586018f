//! The kinds of schedulable entities a stat query can ask about.

use vstd::prelude::*;

verus! {

/// A kind of entity the batch server can be queried for.
#[derive(Clone, Copy, Debug, PartialEq, Eq, Structural)]
pub enum Resource {
    Hostname,
    Que,
    Job,
    Reservation,
    Resource,
    Scheduler,
    Server,
    Vnode,
}

} // verus!
