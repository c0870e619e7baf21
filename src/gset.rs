use vstd::prelude::*;

use crate::keymap::{join, KeyMap};
use crate::merge::Mergeable;

verus! {

/// A grow-only set of strings: elements are added and never removed.
pub struct GSet {
    pub elements: KeyMap<String, ()>,
}

impl View for GSet {
    type V = Set<Seq<char>>;

    open spec fn view(&self) -> Set<Seq<char>> {
        self.elements@.dom()
    }
}

impl GSet {
    pub fn new() -> (r: Self)
        ensures
            r@ == Set::<Seq<char>>::empty(),
    {
        GSet { elements: KeyMap::new() }
    }

    pub fn add(&mut self, value: String)
        ensures
            final(self)@ == old(self)@.insert(value@),
    {
        self.elements.insert(value, ());
    }

    pub fn contains(&self, value: &String) -> (r: bool)
        ensures
            r == self@.contains(value@),
    {
        self.elements.contains(value)
    }

    /// Number of elements.
    pub fn len(&self) -> (n: usize)
        ensures
            n == self@.len(),
    {
        self.elements.len()
    }

    /// Set union.
    pub fn merge(&mut self, other: GSet)
        ensures
            final(self)@ == old(self)@.union(other@),
    {
        let ghost a = self.elements@;
        let ghost b = other.elements@;
        self.elements.absorb(other.elements);
        assert(join::<Seq<char>, ()>(a, b).dom() =~= a.dom().union(b.dom()));
    }
}

impl Mergeable for GSet {
    open spec fn merged(a: Set<Seq<char>>, b: Set<Seq<char>>) -> Set<Seq<char>> {
        a.union(b)
    }

    open spec fn compatible(a: Set<Seq<char>>, b: Set<Seq<char>>) -> bool {
        true
    }

    proof fn lemma_laws(a: Set<Seq<char>>, b: Set<Seq<char>>, c: Set<Seq<char>>) {
        assert(a.union(a) =~= a);
        assert(a.union(b).union(b) =~= a.union(b));
        assert(a.union(b).union(c) =~= a.union(b.union(c)));
        assert(a.union(b) =~= b.union(a));
    }

    fn merge_from(&mut self, other: GSet) {
        self.merge(other);
    }
}

} // verus!
