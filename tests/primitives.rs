use maya_crdt::aworset::AWORSet;
use maya_crdt::clock::LamportClock;
use maya_crdt::gset::GSet;
use maya_crdt::lww::{LWWMap, LWWRegister};
use maya_crdt::orset::ORSet;

fn s(x: &str) -> String {
    x.to_string()
}

fn tag(node: &str, ts: u64) -> (String, u64) {
    (node.to_string(), ts)
}

#[test]
fn clock_ticks_count_up_from_start() {
    let mut c = LamportClock::new("n1");
    c.counter = 41;
    let got: Vec<u64> = (0..5).map(|_| c.tick()).collect();
    assert_eq!(got, vec![42, 43, 44, 45, 46]);
    assert_eq!(c.counter, 46);
    assert_eq!(c.node_id, "n1");
}

#[test]
fn clock_merge_takes_the_larger_counter() {
    let mut a = LamportClock::new("a");
    let mut b = LamportClock::new("b");
    b.counter = 7;
    a.merge(&b);
    assert_eq!(a.counter, 7);
    assert_eq!(a.node_id, "a");
    a.counter = 10;
    a.merge(&b);
    assert_eq!(a.counter, 10);
    let mut z = LamportClock::new("z");
    z.merge(&LamportClock::new("y"));
    assert_eq!(z.counter, 0);
}

#[test]
fn gset_add_is_idempotent_and_merge_is_union() {
    let mut a = GSet::new();
    a.add(s("redis"));
    a.add(s("redis"));
    assert_eq!(a.len(), 1);
    let mut b = GSet::new();
    b.add(s("mysql"));
    b.add(s("redis"));
    a.merge(b);
    assert_eq!(a.len(), 2);
    assert!(a.contains(&s("redis")));
    assert!(a.contains(&s("mysql")));
    assert!(!a.contains(&s("ftp")));
}

#[test]
fn aworset_add_then_remove() {
    let mut set = AWORSet::new();
    set.add(s("root:hunter2"), tag("a", 1));
    assert!(set.elements().contains(&s("root:hunter2")));
    set.remove(&s("root:hunter2"));
    assert_eq!(set.elements().len(), 0);
    set.add(s("root:hunter2"), tag("a", 2));
    assert!(set.elements().contains(&s("root:hunter2")));
}

#[test]
fn aworset_remove_of_unknown_value_is_a_no_op() {
    let mut set = AWORSet::new();
    set.add(s("x"), tag("a", 1));
    set.remove(&s("y"));
    assert_eq!(set.removes.len(), 0);
    assert_eq!(set.elements().len(), 1);
}

#[test]
fn aworset_concurrent_add_wins_over_remove() {
    let mut base = AWORSet::new();
    base.add(s("v"), tag("a", 1));
    let mut s1 = AWORSet::new();
    s1.merge(clone_set(&base));
    s1.remove(&s("v"));
    let mut s2 = AWORSet::new();
    s2.merge(clone_set(&base));
    s2.add(s("v"), tag("b", 2));
    let mut left = clone_set(&s1);
    left.merge(clone_set(&s2));
    assert!(left.elements().contains(&s("v")));
    s2.merge(s1);
    assert!(s2.elements().contains(&s("v")));
}

fn clone_set(x: &AWORSet) -> AWORSet {
    let mut r = AWORSet::new();
    for i in 0..x.adds.len() {
        let (v, tags) = x.adds.entry(i);
        for j in 0..tags.len() {
            r.add(v.clone(), tags.entry(j).0.clone());
        }
    }
    for j in 0..x.removes.len() {
        r.removes.insert(x.removes.entry(j).0.clone(), ());
    }
    r
}

#[test]
fn aworset_merge_unions_tags_and_tombstones() {
    let mut a = AWORSet::new();
    a.add(s("x"), tag("a", 1));
    a.remove(&s("x"));
    let mut b = AWORSet::new();
    b.add(s("x"), tag("a", 1));
    b.add(s("y"), tag("b", 1));
    a.merge(b);
    let e = a.elements();
    assert!(!e.contains(&s("x")));
    assert!(e.contains(&s("y")));
    assert_eq!(a.removes.len(), 1);
}

#[test]
fn register_merge_takes_the_later_write() {
    let mut r: LWWRegister<String> = LWWRegister::new();
    assert!(r.value.is_none());
    r.set(s("redis"), 3, s("a"));
    let mut later: LWWRegister<String> = LWWRegister::new();
    later.set(s("mysql"), 5, s("a"));
    r.merge(later);
    assert_eq!(r.value, Some(s("mysql")));
    assert_eq!(r.ts, 5);
    let mut older: LWWRegister<String> = LWWRegister::new();
    older.set(s("ftp"), 4, s("z"));
    r.merge(older);
    assert_eq!(r.value, Some(s("mysql")));
}

#[test]
fn register_tie_goes_to_the_greater_writer_from_either_side() {
    let mut r1: LWWRegister<String> = LWWRegister::new();
    r1.set(s("from-w1"), 9, s("w1"));
    let mut r2: LWWRegister<String> = LWWRegister::new();
    r2.set(s("from-w2"), 9, s("w2"));
    let mut left: LWWRegister<String> = LWWRegister::new();
    left.set(s("from-w1"), 9, s("w1"));
    left.merge(r2);
    assert_eq!(left.value, Some(s("from-w2")));
    let mut right: LWWRegister<String> = LWWRegister::new();
    right.set(s("from-w2"), 9, s("w2"));
    right.merge(r1);
    assert_eq!(right.value, Some(s("from-w2")));
    assert_eq!(right.node, "w2");
}

#[test]
fn lww_map_resolves_each_key_on_its_own() {
    let mut a: LWWMap<String> = LWWMap::new();
    a.insert(s("redis"), s("old"), 1, s("a"));
    a.insert(s("ssh"), s("mine"), 9, s("a"));
    let mut b: LWWMap<String> = LWWMap::new();
    b.insert(s("redis"), s("new"), 2, s("b"));
    b.insert(s("ssh"), s("theirs"), 3, s("b"));
    b.insert(s("ftp"), s("only-remote"), 1, s("b"));
    a.merge(b);
    assert_eq!(a.len(), 3);
    assert_eq!(a.get(&s("redis")).unwrap().0, "new");
    assert_eq!(a.get(&s("ssh")).unwrap().0, "mine");
    assert_eq!(a.get(&s("ftp")).unwrap().0, "only-remote");
    assert!(a.get(&s("smtp")).is_none());
}

#[test]
fn lww_map_equal_stamp_takes_the_remote_entry() {
    let mut a: LWWMap<String> = LWWMap::new();
    a.insert(s("k"), s("local"), 4, s("n"));
    let mut b: LWWMap<String> = LWWMap::new();
    b.insert(s("k"), s("remote"), 4, s("n"));
    a.merge(b);
    assert_eq!(a.get(&s("k")).unwrap().0, "remote");
    let mut c: LWWMap<String> = LWWMap::new();
    c.insert(s("k"), s("by-m"), 4, s("m"));
    a.merge(c);
    assert_eq!(a.get(&s("k")).unwrap().0, "remote");
}

#[test]
fn lww_writer_order_is_bytewise() {
    let mut r: LWWRegister<String> = LWWRegister::new();
    r.set(s("upper"), 1, s("Zed"));
    let mut o: LWWRegister<String> = LWWRegister::new();
    o.set(s("lower"), 1, s("alpha"));
    r.merge(o);
    assert_eq!(r.value, Some(s("lower")));
    let mut p: LWWRegister<String> = LWWRegister::new();
    p.set(s("prefix"), 1, s("alph"));
    r.merge(p);
    assert_eq!(r.value, Some(s("lower")));
}

#[test]
fn orset_keeps_the_later_observation() {
    let mut a = ORSet::new("a");
    a.observe_at("k1", 100);
    a.observe_at("k2", 50);
    let mut b = ORSet::new("b");
    b.observe_at("k1", 90);
    b.observe_at("k2", 60);
    b.observe_at("k3", 10);
    a.merge(b);
    assert_eq!(a.entries.len(), 3);
    let k1 = a.entries.get(&s("k1")).unwrap();
    assert_eq!((k1.ts, k1.node.as_str()), (100, "a"));
    let k2 = a.entries.get(&s("k2")).unwrap();
    assert_eq!((k2.ts, k2.node.as_str()), (60, "b"));
    assert_eq!(a.node_id, "a");
}

#[test]
fn orset_equal_times_keep_the_local_observation() {
    let mut a = ORSet::new("a");
    a.observe_at("k", 5);
    let mut b = ORSet::new("b");
    b.observe_at("k", 5);
    a.merge(b);
    assert_eq!(a.entries.get(&s("k")).unwrap().node, "a");
}

#[test]
fn orset_observe_stamps_the_present_time() {
    let mut a = ORSet::new("a");
    a.observe("k");
    let e = a.entries.get(&s("k")).unwrap();
    assert!(e.ts > 1_600_000_000);
    assert_eq!(e.node, "a");
}
