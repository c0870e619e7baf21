use vstd::prelude::*;

verus! {

/// A state-based replicated value: `merged` is the join of two replicas'
/// views, and `merge_from` computes it in place.
pub trait Mergeable: View + Sized {
    spec fn merged(a: Self::V, b: Self::V) -> Self::V;

    /// The two views hold no conflicting writes: one event never carries two
    /// different payloads.
    spec fn compatible(a: Self::V, b: Self::V) -> bool;

    proof fn lemma_laws(a: Self::V, b: Self::V, c: Self::V)
        ensures
            Self::merged(a, a) == a,
            Self::merged(Self::merged(a, b), b) == Self::merged(a, b),
            Self::merged(Self::merged(a, b), c) == Self::merged(a, Self::merged(b, c)),
            Self::compatible(a, b) ==> Self::compatible(b, a),
            Self::compatible(a, b) ==> Self::merged(a, b) == Self::merged(b, a),
    ;

    fn merge_from(&mut self, other: Self)
        ensures
            final(self)@ == Self::merged(old(self)@, other@),
    ;
}

impl Mergeable for () {
    open spec fn merged(a: (), b: ()) -> () {
        ()
    }

    open spec fn compatible(a: (), b: ()) -> bool {
        true
    }

    proof fn lemma_laws(a: (), b: (), c: ()) {
    }

    fn merge_from(&mut self, other: ()) {
    }
}

} // verus!
