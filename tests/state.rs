use maya_crdt::attacker::AttackerState;
use maya_crdt::digest::{digest_bytes, to_hex};
use maya_crdt::state::MayaState;

fn s(x: &str) -> String {
    x.to_string()
}

fn attacker<'a>(st: &'a MayaState, id: &str) -> &'a AttackerState {
    st.attackers.get(&s(id)).unwrap()
}

/// A copy made through the snapshot text and the public constructors.
fn copy(st: &MayaState) -> MayaState {
    let mut r = MayaState::new(&st.node_id);
    r.clock.counter = st.clock.counter;
    r.clock.node_id = st.clock.node_id.clone();
    for i in 0..st.attackers.len() {
        let (id, a) = st.attackers.entry(i);
        let mut c = AttackerState::new();
        for j in 0..a.visited_decoys.elements.len() {
            c.visited_decoys.add(a.visited_decoys.elements.entry(j).0.clone());
        }
        for j in 0..a.actions_per_decoy.entries.len() {
            let (k, (v, ts, n)) = a.actions_per_decoy.entries.entry(j);
            c.actions_per_decoy.insert(k.clone(), v.clone(), *ts, n.clone());
        }
        c.location.value = a.location.value.clone();
        c.location.ts = a.location.ts;
        c.location.node = a.location.node.clone();
        r.attackers.insert(id.clone(), c);
    }
    for i in 0..st.stolen_creds.adds.len() {
        let (v, tags) = st.stolen_creds.adds.entry(i);
        for j in 0..tags.len() {
            r.stolen_creds.add(v.clone(), tags.entry(j).0.clone());
        }
    }
    for j in 0..st.stolen_creds.removes.len() {
        r.stolen_creds.removes.insert(st.stolen_creds.removes.entry(j).0.clone(), ());
    }
    for j in 0..st.active_sessions.entries.len() {
        let (k, (v, ts, n)) = st.active_sessions.entries.entry(j);
        r.active_sessions.insert(k.clone(), v.clone(), *ts, n.clone());
    }
    assert_eq!(r.to_json(), st.to_json());
    r
}

fn merged(a: &MayaState, b: &MayaState) -> MayaState {
    let mut r = copy(a);
    r.merge(copy(b));
    r
}

/// The replicated content, without the replica's own identity.
fn content(st: &MayaState) -> String {
    let mut r = copy(st);
    r.node_id = s("-");
    r.clock.node_id = s("-");
    r.to_json()
}

fn sample_a() -> MayaState {
    let mut a = MayaState::new("alpha");
    a.observe_visit("10.0.0.5", "redis");
    a.record_action("10.0.0.5", "redis", "ran redis-cli");
    a.add_cred("root:hunter2");
    a.add_session("redis", "sess_1");
    a
}

fn sample_b() -> MayaState {
    let mut b = MayaState::new("bravo");
    b.update_location("10.0.0.5", "mysql");
    b.observe_visit("10.0.0.9", "ftp");
    b.add_cred("admin:admin");
    b.add_session("redis", "sess_2");
    b.add_session("mysql", "sess_3");
    b
}

fn sample_c() -> MayaState {
    let mut c = MayaState::new("charlie");
    c.record_action("10.0.0.5", "redis", "FLUSHALL");
    c.record_action("10.0.0.5", "redis", "CONFIG SET");
    c.add_cred("root:hunter2");
    c.stolen_creds.remove(&s("root:hunter2"));
    c
}

#[test]
fn credential_tracking_scenario() {
    let mut st = MayaState::new("node-a");
    let empty_digest = st.hash();
    st.add_cred("root:hunter2");
    let creds = st.stolen_creds.elements();
    assert_eq!(creds.len(), 1);
    assert!(creds.contains(&s("root:hunter2")));
    assert_ne!(st.hash(), empty_digest);
    assert_eq!(st.clock.counter, 1);
    let (v, tags) = st.stolen_creds.adds.entry(0);
    assert_eq!(v, "root:hunter2");
    assert_eq!(tags.entry(0).0, (s("node-a"), 1));
}

#[test]
fn cross_replica_convergence_scenario() {
    let mut a = MayaState::new("A");
    a.observe_visit("10.0.0.5", "redis");
    a.record_action("10.0.0.5", "redis", "ran redis-cli");
    let mut b = MayaState::new("B");
    b.clock.counter = 5;
    b.update_location("10.0.0.5", "mysql");
    let a_snapshot = copy(&a);
    let b_snapshot = copy(&b);
    a.merge(b_snapshot);
    b.merge(a_snapshot);
    for st in [&a, &b] {
        let at = attacker(st, "10.0.0.5");
        assert_eq!(at.visited_decoys.len(), 1);
        assert!(at.visited_decoys.contains(&s("redis")));
        assert_eq!(at.actions_per_decoy.len(), 1);
        assert_eq!(at.actions_per_decoy.get(&s("redis")).unwrap().0, "ran redis-cli");
        assert_eq!(at.location.value, Some(s("mysql")));
        assert_eq!(at.location.node, "B");
    }
    assert_eq!(content(&a), content(&b));
}

#[test]
fn duplicate_merge_is_a_no_op_on_the_digest() {
    let mut a = sample_a();
    let b = sample_b();
    a.merge(copy(&b));
    let once = a.hash();
    a.merge(copy(&b));
    assert_eq!(a.hash(), once);
}

#[test]
fn merge_is_idempotent_on_sample_states() {
    let ab = merged(&sample_a(), &sample_b());
    let abb = merged(&ab, &sample_b());
    assert_eq!(abb.to_json(), ab.to_json());
}

#[test]
fn merge_is_commutative_on_sample_states() {
    let ab = merged(&sample_a(), &sample_b());
    let ba = merged(&sample_b(), &sample_a());
    assert_eq!(content(&ab), content(&ba));
    assert_eq!(ab.node_id, "alpha");
    assert_eq!(ba.node_id, "bravo");
}

#[test]
fn merge_is_associative_on_sample_states() {
    let (a, b, c) = (sample_a(), sample_b(), sample_c());
    let left = merged(&merged(&a, &b), &c);
    let right = merged(&a, &merged(&b, &c));
    assert_eq!(left.to_json(), right.to_json());
    assert_eq!(left.hash(), right.hash());
}

#[test]
fn merge_takes_the_larger_clock() {
    let mut a = sample_a();
    let b = sample_b();
    assert_eq!(a.clock.counter, 4);
    assert_eq!(b.clock.counter, 5);
    a.merge(copy(&b));
    assert_eq!(a.clock.counter, 5);
    a.add_cred("x");
    assert_eq!(a.clock.counter, 6);
}

#[test]
fn domain_operations_stamp_with_the_clock_and_replica() {
    let mut st = MayaState::new("n");
    st.observe_visit("i", "redis");
    assert_eq!(st.clock.counter, 1);
    assert!(attacker(&st, "i").location.value.is_none());
    st.record_action("i", "redis", "ls");
    let e = attacker(&st, "i").actions_per_decoy.get(&s("redis")).unwrap();
    assert_eq!((e.0.as_str(), e.1, e.2.as_str()), ("ls", 2, "n"));
    st.update_location("i", "mysql");
    let loc = &attacker(&st, "i").location;
    assert_eq!((loc.value.clone(), loc.ts, loc.node.as_str()), (Some(s("mysql")), 3, "n"));
    st.add_session("db", "s1");
    let sess = st.active_sessions.get(&s("db")).unwrap();
    assert_eq!((sess.0.as_str(), sess.1, sess.2.as_str()), ("s1", 4, "n"));
    assert_eq!(st.attackers.len(), 1);
}

#[test]
fn add_wins_across_replicas() {
    let mut a = MayaState::new("a");
    a.add_cred("v");
    let mut b = copy(&a);
    b.node_id = s("b");
    b.clock.node_id = s("b");
    a.stolen_creds.remove(&s("v"));
    assert_eq!(a.stolen_creds.elements().len(), 0);
    b.add_cred("v");
    a.merge(copy(&b));
    assert!(a.stolen_creds.elements().contains(&s("v")));
}

#[test]
fn snapshot_text_of_an_empty_state() {
    let st = MayaState::new("n1");
    assert_eq!(
        st.to_json(),
        "{\"node_id\":\"n1\",\"clock\":{\"counter\":0,\"node_id\":\"n1\"},\"attackers\":{},\
         \"stolen_creds\":{\"adds\":{},\"removes\":[]},\"active_sessions\":{\"entries\":{}}}"
    );
}

#[test]
fn snapshot_text_lists_keys_in_order() {
    let mut st = MayaState::new("n");
    st.update_location("ip", "db");
    st.observe_visit("ip", "web");
    st.observe_visit("ip", "api");
    st.record_action("ip", "web", "GET /");
    st.add_cred("b");
    st.add_cred("a");
    st.stolen_creds.remove(&s("b"));
    st.add_session("h", "s");
    assert_eq!(
        st.to_json(),
        "{\"node_id\":\"n\",\"clock\":{\"counter\":7,\"node_id\":\"n\"},\"attackers\":{\"ip\":\
         {\"visited_decoys\":{\"elements\":[\"api\",\"web\"]},\"actions_per_decoy\":{\"entries\":\
         {\"web\":[\"GET /\",4,\"n\"]}},\"location\":{\"value\":\"db\",\"ts\":1,\"node\":\"n\"}}},\
         \"stolen_creds\":{\"adds\":{\"a\":[[\"n\",6]],\"b\":[[\"n\",5]]},\"removes\":[[\"n\",5]]},\
         \"active_sessions\":{\"entries\":{\"h\":[\"s\",7,\"n\"]}}}"
    );
}

#[test]
fn snapshot_text_escapes_strings() {
    let mut st = MayaState::new("q\"b\\n\u{1}\n\té");
    st.clock.node_id = s("c");
    let text = st.to_json();
    assert!(text.starts_with("{\"node_id\":\"q\\\"b\\\\n\\u0001\\n\\té\","));
    let parsed: serde_json::Value = serde_json::from_str(&text).unwrap();
    assert_eq!(parsed["node_id"].as_str().unwrap(), "q\"b\\n\u{1}\n\té");
}

#[test]
fn snapshot_text_matches_the_serde_json_rendering() {
    let a = merged(&sample_a(), &sample_c());
    let text = a.to_json();
    let parsed: serde_json::Value = serde_json::from_str(&text).unwrap();
    assert_eq!(parsed["clock"]["counter"].as_u64().unwrap(), 4);
    let redis = &parsed["attackers"]["10.0.0.5"]["actions_per_decoy"]["entries"]["redis"];
    assert_eq!(redis[0].as_str().unwrap(), "CONFIG SET");
}

#[test]
fn digest_of_known_input() {
    assert_eq!(
        digest_bytes(b"abc"),
        "ba7816bf8f01cfea414140de5dae2223b00361a396177a9cb410ff61f20015ad"
    );
    assert_eq!(to_hex(&[0x00, 0x0f, 0xa5, 0xff]), "000fa5ff");
    assert_eq!(to_hex(&[]), "");
}

#[test]
fn state_digest_is_sha256_of_the_snapshot_text() {
    let st = sample_a();
    let h = st.hash();
    assert_eq!(h.len(), 64);
    assert_eq!(h, digest_bytes(st.to_json().as_bytes()));
    assert_eq!(h, copy(&st).hash());
}

#[test]
fn ssh_login_records_only_new_intruders() {
    let mut st = MayaState::new("n");
    assert!(st.note_ssh_login("10.1.1.1"));
    assert_eq!(st.clock.counter, 2);
    let a = attacker(&st, "10.1.1.1");
    assert!(a.visited_decoys.contains(&s("ssh")));
    assert_eq!((a.location.value.clone(), a.location.ts), (Some(s("ssh")), 2));
    st.update_location("10.1.1.1", "db");
    assert!(!st.note_ssh_login("10.1.1.1"));
    assert_eq!(st.clock.counter, 3);
    assert_eq!(attacker(&st, "10.1.1.1").location.value, Some(s("db")));
}
