use vstd::prelude::*;

use crate::keymap::{join, KeyMap};
use crate::merge::Mergeable;
use crate::order::{str_lt, Cmp, Key};

verus! {

/// The write stamped `(ts1, n1)` comes strictly after the one stamped
/// `(ts2, n2)`: a later timestamp, or the same one and a greater writer id.
pub open spec fn newer(ts1: u64, n1: Seq<char>, ts2: u64, n2: Seq<char>) -> bool {
    ts1 > ts2 || (ts1 == ts2 && str_lt(n2, n1))
}

/// `newer` is a strict total order on stamps.
pub proof fn lemma_newer_order(
    ts1: u64,
    n1: Seq<char>,
    ts2: u64,
    n2: Seq<char>,
    ts3: u64,
    n3: Seq<char>,
)
    ensures
        !newer(ts1, n1, ts1, n1),
        newer(ts1, n1, ts2, n2) && newer(ts2, n2, ts3, n3) ==> newer(ts1, n1, ts3, n3),
        (ts1 == ts2 && n1 == n2) || newer(ts1, n1, ts2, n2) || newer(ts2, n2, ts1, n1),
{
    String::lemma_order(n1, n2, n3);
    String::lemma_order(n3, n2, n1);
    String::lemma_order(n2, n1, n3);
}

fn is_newer(ts1: u64, n1: &String, ts2: u64, n2: &String) -> (r: bool)
    ensures
        r == newer(ts1, n1@, ts2, n2@),
{
    proof {
        String::lemma_order(n1@, n2@, n1@);
    }
    if ts1 != ts2 {
        ts1 > ts2
    } else {
        match n2.compare(n1) {
            Cmp::Less => true,
            _ => false,
        }
    }
}

/// A last-writer-wins register: the write with the greatest stamp
/// `(ts, node)` holds.
pub struct LWWRegister<T: View> {
    pub value: Option<T>,
    pub ts: u64,
    pub node: String,
}

pub open spec fn option_view<T: View>(o: Option<T>) -> Option<T::V> {
    match o {
        Some(v) => Some(v@),
        None => None,
    }
}

impl<T: View> View for LWWRegister<T> {
    /// The value, its timestamp and its writer.
    type V = (Option<T::V>, u64, Seq<char>);

    open spec fn view(&self) -> (Option<T::V>, u64, Seq<char>) {
        (option_view(self.value), self.ts, self.node@)
    }
}

impl<T: View> LWWRegister<T> {
    pub fn new() -> (r: Self)
        ensures
            r@ == (None::<T::V>, 0u64, Seq::<char>::empty()),
    {
        LWWRegister { value: None, ts: 0, node: String::new() }
    }

    /// The writer's own write; it is not compared with what is there.
    pub fn set(&mut self, value: T, ts: u64, node: String)
        ensures
            final(self)@ == (Some(value@), ts, node@),
    {
        self.value = Some(value);
        self.ts = ts;
        self.node = node;
    }

    /// Takes `other` if its stamp is newer; on equal stamps keeps its own.
    pub fn merge(&mut self, other: LWWRegister<T>)
        ensures
            final(self)@ == Self::merged(old(self)@, other@),
    {
        if is_newer(other.ts, &other.node, self.ts, &self.node) {
            *self = other;
        }
    }
}

impl<T: View> Mergeable for LWWRegister<T> {
    open spec fn merged(
        a: (Option<T::V>, u64, Seq<char>),
        b: (Option<T::V>, u64, Seq<char>),
    ) -> (Option<T::V>, u64, Seq<char>) {
        if newer(b.1, b.2, a.1, a.2) {
            b
        } else {
            a
        }
    }

    open spec fn compatible(
        a: (Option<T::V>, u64, Seq<char>),
        b: (Option<T::V>, u64, Seq<char>),
    ) -> bool {
        a.1 == b.1 && a.2 == b.2 ==> a.0 == b.0
    }

    proof fn lemma_laws(
        a: (Option<T::V>, u64, Seq<char>),
        b: (Option<T::V>, u64, Seq<char>),
        c: (Option<T::V>, u64, Seq<char>),
    ) {
        lemma_newer_order(a.1, a.2, b.1, b.2, c.1, c.2);
        lemma_newer_order(c.1, c.2, b.1, b.2, a.1, a.2);
        lemma_newer_order(b.1, b.2, a.1, a.2, c.1, c.2);
        lemma_newer_order(a.1, a.2, c.1, c.2, b.1, b.2);
        lemma_newer_order(b.1, b.2, c.1, c.2, a.1, a.2);
        lemma_newer_order(c.1, c.2, a.1, a.2, b.1, b.2);
        lemma_newer_order(a.1, a.2, b.1, b.2, a.1, a.2);
        lemma_newer_order(b.1, b.2, a.1, a.2, b.1, b.2);
    }

    fn merge_from(&mut self, other: Self) {
        self.merge(other);
    }
}

/// One entry of a last-writer-wins map: value, timestamp, writer. Of two
/// entries the remote one is taken unless the local one is strictly newer.
impl<V: View> Mergeable for (V, u64, String) {
    open spec fn merged(a: (V::V, u64, Seq<char>), b: (V::V, u64, Seq<char>)) -> (
        V::V,
        u64,
        Seq<char>,
    ) {
        if newer(a.1, a.2, b.1, b.2) {
            a
        } else {
            b
        }
    }

    open spec fn compatible(a: (V::V, u64, Seq<char>), b: (V::V, u64, Seq<char>)) -> bool {
        a.1 == b.1 && a.2 == b.2 ==> a.0 == b.0
    }

    proof fn lemma_laws(
        a: (V::V, u64, Seq<char>),
        b: (V::V, u64, Seq<char>),
        c: (V::V, u64, Seq<char>),
    ) {
        lemma_newer_order(a.1, a.2, b.1, b.2, c.1, c.2);
        lemma_newer_order(c.1, c.2, b.1, b.2, a.1, a.2);
        lemma_newer_order(b.1, b.2, a.1, a.2, c.1, c.2);
        lemma_newer_order(a.1, a.2, c.1, c.2, b.1, b.2);
        lemma_newer_order(b.1, b.2, c.1, c.2, a.1, a.2);
        lemma_newer_order(c.1, c.2, a.1, a.2, b.1, b.2);
        lemma_newer_order(a.1, a.2, b.1, b.2, a.1, a.2);
        lemma_newer_order(b.1, b.2, a.1, a.2, b.1, b.2);
    }

    fn merge_from(&mut self, other: Self) {
        if !is_newer(self.1, &self.2, other.1, &other.2) {
            *self = other;
        }
    }
}

/// A map whose keys are resolved independently, each as a last-writer-wins
/// register.
pub struct LWWMap<V: View> {
    pub entries: KeyMap<String, (V, u64, String)>,
}

impl<V: View> View for LWWMap<V> {
    type V = Map<Seq<char>, (V::V, u64, Seq<char>)>;

    open spec fn view(&self) -> Map<Seq<char>, (V::V, u64, Seq<char>)> {
        self.entries@
    }
}

impl<V: View> LWWMap<V> {
    pub fn new() -> (r: Self)
        ensures
            r@ == Map::<Seq<char>, (V::V, u64, Seq<char>)>::empty(),
    {
        LWWMap { entries: KeyMap::new() }
    }

    /// The writer's own write of one entry.
    pub fn insert(&mut self, key: String, value: V, ts: u64, node: String)
        ensures
            final(self)@ == old(self)@.insert(key@, (value@, ts, node@)),
    {
        self.entries.insert(key, (value, ts, node));
    }

    pub fn get(&self, key: &String) -> (r: Option<&(V, u64, String)>)
        ensures
            match r {
                Some(e) => self@.contains_key(key@) && e@ == self@[key@],
                None => !self@.contains_key(key@),
            },
    {
        self.entries.get(key)
    }

    /// Number of keys.
    pub fn len(&self) -> (n: usize)
        ensures
            n == self@.len(),
    {
        self.entries.len()
    }

    /// Keys only held remotely are adopted; a key held by both keeps the
    /// local entry only if it is strictly newer.
    pub fn merge(&mut self, other: LWWMap<V>)
        ensures
            final(self)@ == join::<Seq<char>, (V, u64, String)>(old(self)@, other@),
    {
        self.entries.absorb(other.entries);
    }
}

impl<V: View> Mergeable for LWWMap<V> {
    open spec fn merged(
        a: Map<Seq<char>, (V::V, u64, Seq<char>)>,
        b: Map<Seq<char>, (V::V, u64, Seq<char>)>,
    ) -> Map<Seq<char>, (V::V, u64, Seq<char>)> {
        join::<Seq<char>, (V, u64, String)>(a, b)
    }

    open spec fn compatible(
        a: Map<Seq<char>, (V::V, u64, Seq<char>)>,
        b: Map<Seq<char>, (V::V, u64, Seq<char>)>,
    ) -> bool {
        KeyMap::<String, (V, u64, String)>::compatible(a, b)
    }

    proof fn lemma_laws(
        a: Map<Seq<char>, (V::V, u64, Seq<char>)>,
        b: Map<Seq<char>, (V::V, u64, Seq<char>)>,
        c: Map<Seq<char>, (V::V, u64, Seq<char>)>,
    ) {
        KeyMap::<String, (V, u64, String)>::lemma_laws(a, b, c);
    }

    fn merge_from(&mut self, other: Self) {
        self.merge(other);
    }
}

/// Of two register writes with the same timestamp, the one by the greater
/// writer id wins, whichever side merges.
pub proof fn lemma_register_tie_break<T: View>(v1: Option<T::V>, v2: Option<T::V>, ts: u64, w1: Seq<char>, w2: Seq<char>)
    requires
        str_lt(w1, w2),
    ensures
        LWWRegister::<T>::merged((v1, ts, w1), (v2, ts, w2)) == (v2, ts, w2),
        LWWRegister::<T>::merged((v2, ts, w2), (v1, ts, w1)) == (v2, ts, w2),
{
    lemma_newer_order(ts, w1, ts, w2, ts, w1);
}

} // verus!
