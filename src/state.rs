use vstd::prelude::*;

use crate::attacker::{fresh_attacker, AttackerState, AttackerView};
use crate::aworset::{added, AWORSet, AWORSetView};
use crate::clock::LamportClock;
use crate::keymap::{join, KeyMap};
use crate::lww::LWWMap;
use crate::merge::Mergeable;

verus! {

/// One replica's whole tracking state.
pub struct MayaState {
    /// The owning replica; it tags and stamps every local write.
    pub node_id: String,
    pub clock: LamportClock,
    /// Per intruder id.
    pub attackers: KeyMap<String, AttackerState>,
    pub stolen_creds: AWORSet,
    /// Host to session id.
    pub active_sessions: LWWMap<String>,
}

#[verifier::ext_equal]
pub struct MayaView {
    pub node_id: Seq<char>,
    pub counter: u64,
    /// The replica id the clock carries.
    pub clock_node: Seq<char>,
    pub attackers: Map<Seq<char>, AttackerView>,
    pub creds: AWORSetView,
    pub sessions: Map<Seq<char>, (Seq<char>, u64, Seq<char>)>,
}

impl View for MayaState {
    type V = MayaView;

    open spec fn view(&self) -> MayaView {
        MayaView {
            node_id: self.node_id@,
            counter: self.clock.counter,
            clock_node: self.clock.node_id@,
            attackers: self.attackers@,
            creds: self.stolen_creds@,
            sessions: self.active_sessions@,
        }
    }
}

/// What `s` knows of intruder `id` (a fresh state if nothing).
pub open spec fn attacker_of(s: MayaView, id: Seq<char>) -> AttackerView {
    if s.attackers.contains_key(id) {
        s.attackers[id]
    } else {
        fresh_attacker()
    }
}

/// `s` after its clock ticked and intruder `id` became `a`.
pub open spec fn with_attacker(s: MayaView, id: Seq<char>, a: AttackerView) -> MayaView {
    MayaView { counter: (s.counter + 1) as u64, attackers: s.attackers.insert(id, a), ..s }
}

/// `s` after intruder `id` was seen visiting `decoy`.
pub open spec fn visit_observed(s: MayaView, id: Seq<char>, decoy: Seq<char>) -> MayaView {
    let a = attacker_of(s, id);
    with_attacker(s, id, AttackerView { visited: a.visited.insert(decoy), ..a })
}

/// `s` after intruder `id` was seen doing `action` on `decoy`.
pub open spec fn action_recorded(
    s: MayaView,
    id: Seq<char>,
    decoy: Seq<char>,
    action: Seq<char>,
) -> MayaView {
    let a = attacker_of(s, id);
    let stamp = (s.counter + 1) as u64;
    with_attacker(
        s,
        id,
        AttackerView { actions: a.actions.insert(decoy, (action, stamp, s.node_id)), ..a },
    )
}

/// `s` after intruder `id` was seen moving to `location`.
pub open spec fn location_updated(s: MayaView, id: Seq<char>, location: Seq<char>) -> MayaView {
    let a = attacker_of(s, id);
    let stamp = (s.counter + 1) as u64;
    with_attacker(s, id, AttackerView { location: (Some(location), stamp, s.node_id), ..a })
}

/// `s` after credential `cred` was recorded.
pub open spec fn cred_added(s: MayaView, cred: Seq<char>) -> MayaView {
    let stamp = (s.counter + 1) as u64;
    MayaView { counter: stamp, creds: added(s.creds, cred, (s.node_id, stamp)), ..s }
}

/// `s` after session `session_id` on `host` was recorded.
pub open spec fn session_added(s: MayaView, host: Seq<char>, session_id: Seq<char>) -> MayaView {
    let stamp = (s.counter + 1) as u64;
    MayaView { counter: stamp, sessions: s.sessions.insert(host, (session_id, stamp, s.node_id)), ..s }
}

/// `s` without intruder `id`.
pub open spec fn without_attacker(s: MayaView, id: Seq<char>) -> MayaView {
    MayaView { attackers: s.attackers.remove(id), ..s }
}

/// The result of merging `remote` into `local`: the local identity, the
/// larger counter, and the join of every replicated part.
pub open spec fn merged_state(local: MayaView, remote: MayaView) -> MayaView {
    MayaView {
        node_id: local.node_id,
        counter: if local.counter >= remote.counter {
            local.counter
        } else {
            remote.counter
        },
        clock_node: local.clock_node,
        attackers: join::<Seq<char>, AttackerState>(local.attackers, remote.attackers),
        creds: AWORSet::merged(local.creds, remote.creds),
        sessions: LWWMap::<String>::merged(local.sessions, remote.sessions),
    }
}

/// No write, as identified by its stamp, carries different payloads in `a`
/// and in `b`.
pub open spec fn compatible_states(a: MayaView, b: MayaView) -> bool {
    &&& KeyMap::<String, AttackerState>::compatible(a.attackers, b.attackers)
    &&& LWWMap::<String>::compatible(a.sessions, b.sessions)
}

impl MayaState {
    pub fn new(node_id: &str) -> (r: Self)
        ensures
            r@.node_id == node_id@,
            r@.counter == 0,
            r@.clock_node == node_id@,
            r@.attackers == Map::<Seq<char>, AttackerView>::empty(),
            r@.creds.adds == Map::<Seq<char>, Set<(Seq<char>, u64)>>::empty(),
            r@.creds.removes == Set::<(Seq<char>, u64)>::empty(),
            r@.sessions == Map::<Seq<char>, (Seq<char>, u64, Seq<char>)>::empty(),
    {
        MayaState {
            node_id: node_id.to_string(),
            clock: LamportClock::new(node_id),
            attackers: KeyMap::new(),
            stolen_creds: AWORSet::new(),
            active_sessions: LWWMap::new(),
        }
    }

    /// Moves intruder `id`'s state out, or a fresh one if there is none.
    fn take_attacker(&mut self, attacker_id: &str) -> (r: (String, AttackerState))
        ensures
            r.0@ == attacker_id@,
            r.1@ == attacker_of(old(self)@, attacker_id@),
            final(self)@ == without_attacker(old(self)@, attacker_id@),
    {
        let id = attacker_id.to_string();
        let a = match self.attackers.take(&id) {
            Some(a) => a,
            None => AttackerState::new(),
        };
        (id, a)
    }

    /// Records that intruder `attacker_id` visited `decoy`. The clock ticks,
    /// but the location is left alone: moving is `update_location`'s.
    pub fn observe_visit(&mut self, attacker_id: &str, decoy: &str)
        requires
            old(self).clock.counter < u64::MAX,
        ensures
            final(self)@ == visit_observed(old(self)@, attacker_id@, decoy@),
    {
        let ghost before = self@;
        let (id, mut a) = self.take_attacker(attacker_id);
        self.clock.tick();
        a.visited_decoys.add(decoy.to_string());
        self.attackers.insert(id, a);
        assert(self@ =~= visit_observed(before, attacker_id@, decoy@));
    }

    /// Records the last action of intruder `attacker_id` on `decoy`, stamped
    /// with a fresh tick.
    pub fn record_action(&mut self, attacker_id: &str, decoy: &str, action: &str)
        requires
            old(self).clock.counter < u64::MAX,
        ensures
            final(self)@ == action_recorded(old(self)@, attacker_id@, decoy@, action@),
    {
        let ghost before = self@;
        let (id, mut a) = self.take_attacker(attacker_id);
        let ts = self.clock.tick();
        a.actions_per_decoy.insert(decoy.to_string(), action.to_string(), ts, self.node_id.clone());
        self.attackers.insert(id, a);
        assert(self@ =~= action_recorded(before, attacker_id@, decoy@, action@));
    }

    /// Moves intruder `attacker_id` to `location`, stamped with a fresh tick.
    pub fn update_location(&mut self, attacker_id: &str, location: &str)
        requires
            old(self).clock.counter < u64::MAX,
        ensures
            final(self)@ == location_updated(old(self)@, attacker_id@, location@),
    {
        let ghost before = self@;
        let (id, mut a) = self.take_attacker(attacker_id);
        let ts = self.clock.tick();
        a.location.set(location.to_string(), ts, self.node_id.clone());
        self.attackers.insert(id, a);
        assert(self@ =~= location_updated(before, attacker_id@, location@));
    }

    /// Records a stolen credential, tagged with this replica and a fresh tick.
    pub fn add_cred(&mut self, cred: &str)
        requires
            old(self).clock.counter < u64::MAX,
        ensures
            final(self)@ == cred_added(old(self)@, cred@),
    {
        let ts = self.clock.tick();
        self.stolen_creds.add(cred.to_string(), (self.node_id.clone(), ts));
    }

    /// Records the session open on `host`, stamped with a fresh tick.
    pub fn add_session(&mut self, host: &str, session_id: &str)
        requires
            old(self).clock.counter < u64::MAX,
        ensures
            final(self)@ == session_added(old(self)@, host@, session_id@),
    {
        let ts = self.clock.tick();
        self.active_sessions.insert(host.to_string(), session_id.to_string(), ts, self.node_id.clone());
    }

    /// Folds a remote snapshot into this one.
    pub fn merge(&mut self, remote: MayaState)
        ensures
            final(self)@ == merged_state(old(self)@, remote@),
    {
        self.clock.merge(&remote.clock);
        self.attackers.absorb(remote.attackers);
        self.stolen_creds.merge(remote.stolen_creds);
        self.active_sessions.merge(remote.active_sessions);
    }

    /// Takes note of an intruder seen logging in over SSH: one not tracked yet
    /// is recorded as visiting, and located at, the `ssh` decoy. Returns
    /// whether it was new.
    pub fn note_ssh_login(&mut self, attacker_id: &str) -> (r: bool)
        requires
            old(self).clock.counter < u64::MAX - 1,
        ensures
            r == !old(self)@.attackers.contains_key(attacker_id@),
            r ==> final(self)@ == location_updated(
                visit_observed(old(self)@, attacker_id@, "ssh"@),
                attacker_id@,
                "ssh"@,
            ),
            !r ==> final(self)@ == old(self)@,
    {
        if self.attackers.contains(&attacker_id.to_string()) {
            false
        } else {
            self.observe_visit(attacker_id, "ssh");
            self.update_location(attacker_id, "ssh");
            true
        }
    }
}

} // verus!
