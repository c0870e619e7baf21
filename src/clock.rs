use vstd::prelude::*;

verus! {

/// A Lamport clock: a counter that stamps the replica's own events.
pub struct LamportClock {
    pub counter: u64,
    pub node_id: String,
}

impl LamportClock {
    pub fn new(node_id: &str) -> (r: Self)
        ensures
            r.counter == 0,
            r.node_id@ == node_id@,
    {
        LamportClock { counter: 0, node_id: node_id.to_string() }
    }

    /// Advances the counter by one and returns the new reading.
    pub fn tick(&mut self) -> (r: u64)
        requires
            old(self).counter < u64::MAX,
        ensures
            r == old(self).counter + 1,
            final(self).counter == r,
            final(self).node_id == old(self).node_id,
    {
        self.counter = self.counter + 1;
        self.counter
    }

    /// Catches up with a remote clock: the counter becomes the larger of the
    /// two, so that later ticks come after everything either side has seen.
    /// A merge is not itself a tick, so merging the same clock again changes
    /// nothing.
    pub fn merge(&mut self, remote: &LamportClock)
        ensures
            final(self).counter == if old(self).counter >= remote.counter {
                old(self).counter
            } else {
                remote.counter
            },
            final(self).node_id == old(self).node_id,
    {
        if remote.counter > self.counter {
            self.counter = remote.counter;
        }
    }
}

} // verus!
