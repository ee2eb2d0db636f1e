//! A queue of deferred actions with an on/off switch.
use vstd::prelude::*;

verus! {

pub struct MultiexecContainer {
    pub active: bool,
    pub execution_queue: Vec<Box<()>>,
}

impl MultiexecContainer {
    /// An inactive container with nothing queued.
    pub fn new() -> (r: Self)
        ensures
            !r.active,
            r.execution_queue@.len() == 0,
    {
        Self { execution_queue: Vec::new(), active: false }
    }

    /// Queues `action` after the ones already queued.
    pub fn store_action(&mut self, action: Box<()>)
        ensures
            final(self).active == old(self).active,
            final(self).execution_queue@ == old(self).execution_queue@.push(action),
    {
        self.execution_queue.push(action)
    }
}

} // verus!
