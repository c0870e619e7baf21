use vstd::prelude::*;

use crate::attacker::AttackerState;
use crate::aworset::AWORSet;
use crate::keymap::lemma_join_laws;
use crate::lww::LWWMap;
use crate::merge::Mergeable;
use crate::state::{compatible_states, merged_state, MayaView};

verus! {

/// Merging the same snapshot a second time changes nothing.
pub proof fn lemma_merge_idempotent(a: MayaView, b: MayaView)
    ensures
        merged_state(merged_state(a, b), b) == merged_state(a, b),
{
    lemma_join_laws::<Seq<char>, AttackerState>(a.attackers, b.attackers, b.attackers);
    AWORSet::lemma_laws(a.creds, b.creds, b.creds);
    LWWMap::<String>::lemma_laws(a.sessions, b.sessions, b.sessions);
    assert(merged_state(merged_state(a, b), b) =~= merged_state(a, b));
}

/// Merging in either order gives the same replicated content; only the
/// identity of the replica that merged differs.
pub proof fn lemma_merge_commutative(a: MayaView, b: MayaView)
    requires
        compatible_states(a, b),
    ensures
        merged_state(a, b) == (MayaView {
            node_id: a.node_id,
            clock_node: a.clock_node,
            ..merged_state(b, a)
        }),
{
    lemma_join_laws::<Seq<char>, AttackerState>(a.attackers, b.attackers, b.attackers);
    AWORSet::lemma_laws(a.creds, b.creds, b.creds);
    LWWMap::<String>::lemma_laws(a.sessions, b.sessions, b.sessions);
    assert(merged_state(a, b) =~= (MayaView {
        node_id: a.node_id,
        clock_node: a.clock_node,
        ..merged_state(b, a)
    }));
}

/// Merges can be grouped either way.
pub proof fn lemma_merge_associative(a: MayaView, b: MayaView, c: MayaView)
    ensures
        merged_state(merged_state(a, b), c) == merged_state(a, merged_state(b, c)),
{
    lemma_join_laws::<Seq<char>, AttackerState>(a.attackers, b.attackers, c.attackers);
    AWORSet::lemma_laws(a.creds, b.creds, c.creds);
    LWWMap::<String>::lemma_laws(a.sessions, b.sessions, c.sessions);
    assert(merged_state(merged_state(a, b), c) =~= merged_state(a, merged_state(b, c)));
}

} // verus!
