//! One readiness notification from the poller.

use vstd::prelude::*;

verus! {

/// A kernel readiness event: the descriptor it concerns and what the
/// kernel reported for it.
pub struct Event {
    pub fd: i32,
    pub readable: bool,
    pub writable: bool,
    pub error: bool,
    pub eof: bool,
}

} // verus!
