//! Shared shutdown signal, consulted cooperatively by every loop of a run.

use vstd::prelude::*;

verus! {

/// One-directional lifecycle signal: it starts in the running state and can
/// only ever be stopped.  No method of this type re-starts a stopped flag, so
/// the transition relation is `running -> stopped` and nothing else.
pub struct LifecycleFlag {
    up: bool,
}

impl LifecycleFlag {
    /// Whether the run is still live.
    pub closed spec fn running(&self) -> bool {
        self.up
    }

    /// A fresh flag for a new run: live until someone requests a stop.
    pub fn new() -> (r: LifecycleFlag)
        ensures
            r.running(),
    {
        LifecycleFlag { up: true }
    }

    /// Request a cooperative stop.  Idempotent; never makes the flag live again.
    pub fn request_stop(&mut self)
        ensures
            !final(self).running(),
    {
        self.up = false;
    }

    /// Poll the flag.
    pub fn is_running(&self) -> (r: bool)
        ensures
            r == self.running(),
    {
        self.up
    }
}

} // verus!
