use vstd::prelude::*;

use crate::gset::GSet;
use crate::lww::{LWWMap, LWWRegister};
use crate::merge::Mergeable;

verus! {

/// What one replica knows of one intruder.
pub struct AttackerState {
    /// The decoys visited.
    pub visited_decoys: GSet,
    /// The last action seen on each decoy.
    pub actions_per_decoy: LWWMap<String>,
    /// The current location.
    pub location: LWWRegister<String>,
}

#[verifier::ext_equal]
pub struct AttackerView {
    pub visited: Set<Seq<char>>,
    pub actions: Map<Seq<char>, (Seq<char>, u64, Seq<char>)>,
    pub location: (Option<Seq<char>>, u64, Seq<char>),
}

/// The state of an intruder not seen before.
pub open spec fn fresh_attacker() -> AttackerView {
    AttackerView {
        visited: Set::empty(),
        actions: Map::empty(),
        location: (None, 0, Seq::empty()),
    }
}

impl View for AttackerState {
    type V = AttackerView;

    open spec fn view(&self) -> AttackerView {
        AttackerView {
            visited: self.visited_decoys@,
            actions: self.actions_per_decoy@,
            location: self.location@,
        }
    }
}

impl AttackerState {
    pub fn new() -> (r: Self)
        ensures
            r@ == fresh_attacker(),
    {
        let r = AttackerState {
            visited_decoys: GSet::new(),
            actions_per_decoy: LWWMap::new(),
            location: LWWRegister::new(),
        };
        assert(r@ =~= fresh_attacker());
        r
    }

    /// Field-wise merge.
    pub fn merge(&mut self, other: AttackerState)
        ensures
            final(self)@ == Self::merged(old(self)@, other@),
    {
        self.visited_decoys.merge(other.visited_decoys);
        self.actions_per_decoy.merge(other.actions_per_decoy);
        self.location.merge(other.location);
    }
}

impl Mergeable for AttackerState {
    open spec fn merged(a: AttackerView, b: AttackerView) -> AttackerView {
        AttackerView {
            visited: GSet::merged(a.visited, b.visited),
            actions: LWWMap::<String>::merged(a.actions, b.actions),
            location: LWWRegister::<String>::merged(a.location, b.location),
        }
    }

    open spec fn compatible(a: AttackerView, b: AttackerView) -> bool {
        &&& LWWMap::<String>::compatible(a.actions, b.actions)
        &&& LWWRegister::<String>::compatible(a.location, b.location)
    }

    proof fn lemma_laws(a: AttackerView, b: AttackerView, c: AttackerView) {
        GSet::lemma_laws(a.visited, b.visited, c.visited);
        LWWMap::<String>::lemma_laws(a.actions, b.actions, c.actions);
        LWWRegister::<String>::lemma_laws(a.location, b.location, c.location);
        assert(Self::merged(a, a) =~= a);
    }

    fn merge_from(&mut self, other: Self) {
        self.merge(other);
    }
}

} // verus!
