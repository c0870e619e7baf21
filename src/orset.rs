use vstd::prelude::*;

use crate::keymap::{join, KeyMap};
use crate::merge::Mergeable;

verus! {

/// When a key was last observed, and by which replica.
pub struct Entry {
    /// Seconds since the Unix epoch.
    pub ts: i64,
    pub node: String,
}

impl View for Entry {
    type V = (i64, Seq<char>);

    open spec fn view(&self) -> (i64, Seq<char>) {
        (self.ts, self.node@)
    }
}

/// Of two observations the local one stays unless the remote one is strictly
/// later.
impl Mergeable for Entry {
    open spec fn merged(a: (i64, Seq<char>), b: (i64, Seq<char>)) -> (i64, Seq<char>) {
        if a.0 >= b.0 {
            a
        } else {
            b
        }
    }

    open spec fn compatible(a: (i64, Seq<char>), b: (i64, Seq<char>)) -> bool {
        a.0 == b.0 ==> a.1 == b.1
    }

    proof fn lemma_laws(a: (i64, Seq<char>), b: (i64, Seq<char>), c: (i64, Seq<char>)) {
    }

    fn merge_from(&mut self, other: Entry) {
        if self.ts < other.ts {
            *self = other;
        }
    }
}

/// A set of keys, each remembered with the time it was last observed.
pub struct ORSet {
    pub node_id: String,
    pub entries: KeyMap<String, Entry>,
}

/// Relies on chrono's `Utc::now` and `DateTime::timestamp`: the system clock
/// read as seconds since the Unix epoch. Nothing is promised of the reading.
#[verifier::external_body]
fn unix_now() -> i64 {
    chrono::Utc::now().timestamp()
}

impl ORSet {
    pub fn new(node_id: &str) -> (r: Self)
        ensures
            r.node_id@ == node_id@,
            r.entries@ == Map::<Seq<char>, (i64, Seq<char>)>::empty(),
    {
        ORSet { node_id: node_id.to_string(), entries: KeyMap::new() }
    }

    /// Records that `key` was observed at time `ts` by this replica.
    pub fn observe_at(&mut self, key: &str, ts: i64)
        ensures
            final(self).node_id == old(self).node_id,
            final(self).entries@ == old(self).entries@.insert(key@, (ts, old(self).node_id@)),
    {
        let e = Entry { ts, node: self.node_id.clone() };
        self.entries.insert(key.to_string(), e);
    }

    /// Records that `key` was observed now by this replica.
    pub fn observe(&mut self, key: &str)
        ensures
            final(self).node_id == old(self).node_id,
            exists|ts: i64|
                final(self).entries@ == old(self).entries@.insert(key@, (ts, old(self).node_id@)),
    {
        let ts = unix_now();
        self.observe_at(key, ts);
    }

    /// Keeps, for each key, the later observation; on equal times the local one.
    pub fn merge(&mut self, remote: ORSet)
        ensures
            final(self).node_id == old(self).node_id,
            final(self).entries@ == join::<Seq<char>, Entry>(old(self).entries@, remote.entries@),
    {
        self.entries.absorb(remote.entries);
    }
}

} // verus!
