use vstd::prelude::*;

use crate::merge::Mergeable;
use crate::order::{Cmp, Key};

verus! {

/// Entries are strictly increasing by key; in particular no key occurs twice.
pub open spec fn sorted_keys<K: Key, V>(s: Seq<(K, V)>) -> bool {
    forall|i: int, j: int|
        0 <= i < j < s.len() ==> K::precedes(#[trigger] s[i].0@, #[trigger] s[j].0@)
}

pub open spec fn has_key<K: View, V>(s: Seq<(K, V)>, k: K::V) -> bool {
    exists|i: int| 0 <= i < s.len() && s[i].0@ == k
}

pub open spec fn key_index<K: View, V>(s: Seq<(K, V)>, k: K::V) -> int {
    choose|i: int| 0 <= i < s.len() && s[i].0@ == k
}

/// The map that a sequence of entries stands for.
pub open spec fn entries_view<K: View, V: View>(s: Seq<(K, V)>) -> Map<K::V, V::V> {
    Map::new(|k: K::V| has_key(s, k), |k: K::V| s[key_index(s, k)].1@)
}

/// Pointwise join of two maps: a key held by one side keeps its value, a key
/// held by both gets the merge of the two values.
pub open spec fn join<KV, V: Mergeable>(a: Map<KV, V::V>, b: Map<KV, V::V>) -> Map<KV, V::V> {
    Map::new(
        |k: KV| a.contains_key(k) || b.contains_key(k),
        |k: KV|
            if !b.contains_key(k) {
                a[k]
            } else if !a.contains_key(k) {
                b[k]
            } else {
                V::merged(a[k], b[k])
            },
    )
}

/// The values of keys held by both maps are compatible.
pub open spec fn join_compatible<KV, V: Mergeable>(a: Map<KV, V::V>, b: Map<KV, V::V>) -> bool {
    forall|k: KV|
        a.contains_key(k) && b.contains_key(k) ==> V::compatible(#[trigger] a[k], #[trigger] b[k])
}

/// What one remote entry `(k, v)` does to the local map.
pub open spec fn join_step<KV, V: Mergeable>(a: Map<KV, V::V>, k: KV, v: V::V) -> Map<KV, V::V> {
    if a.contains_key(k) {
        a.insert(k, V::merged(a[k], v))
    } else {
        a.insert(k, v)
    }
}

pub proof fn lemma_join_step<KV, V: Mergeable>(a: Map<KV, V::V>, b: Map<KV, V::V>, k: KV, v: V::V)
    requires
        !b.contains_key(k),
    ensures
        join::<KV, V>(a, b.insert(k, v)) == join::<KV, V>(join_step::<KV, V>(a, k, v), b),
{
    assert(join::<KV, V>(a, b.insert(k, v)) =~= join::<KV, V>(join_step::<KV, V>(a, k, v), b));
}

pub proof fn lemma_join_empty<KV, V: Mergeable>(a: Map<KV, V::V>)
    ensures
        join::<KV, V>(a, Map::empty()) == a,
{
    assert(join::<KV, V>(a, Map::empty()) =~= a);
}

/// The join of maps inherits the laws of the merge of their values.
pub proof fn lemma_join_laws<KV, V: Mergeable>(
    a: Map<KV, V::V>,
    b: Map<KV, V::V>,
    c: Map<KV, V::V>,
)
    ensures
        join::<KV, V>(a, a) == a,
        join::<KV, V>(join::<KV, V>(a, b), b) == join::<KV, V>(a, b),
        join::<KV, V>(join::<KV, V>(a, b), c) == join::<KV, V>(a, join::<KV, V>(b, c)),
        join_compatible::<KV, V>(a, b) ==> join_compatible::<KV, V>(b, a),
        join_compatible::<KV, V>(a, b) ==> join::<KV, V>(a, b) == join::<KV, V>(b, a),
{
    assert forall|k: KV| #[trigger] a.contains_key(k) implies join::<KV, V>(a, a)[k] == a[k] by {
        V::lemma_laws(a[k], a[k], a[k]);
    }
    assert(join::<KV, V>(a, a) =~= a);
    let ab = join::<KV, V>(a, b);
    assert forall|k: KV| #[trigger] ab.contains_key(k) implies join::<KV, V>(ab, b)[k] == ab[k] by {
        if a.contains_key(k) && b.contains_key(k) {
            V::lemma_laws(a[k], b[k], b[k]);
        } else if b.contains_key(k) {
            V::lemma_laws(b[k], b[k], b[k]);
        }
    }
    assert(join::<KV, V>(ab, b) =~= ab);
    let bc = join::<KV, V>(b, c);
    let l = join::<KV, V>(ab, c);
    let r = join::<KV, V>(a, bc);
    assert forall|k: KV| #[trigger] l.contains_key(k) implies l[k] == r[k] by {
        if a.contains_key(k) && b.contains_key(k) && c.contains_key(k) {
            V::lemma_laws(a[k], b[k], c[k]);
        }
    }
    assert(l =~= r);
    if join_compatible::<KV, V>(a, b) {
        assert forall|k: KV| a.contains_key(k) && b.contains_key(k) implies V::compatible(
            #[trigger] b[k],
            #[trigger] a[k],
        ) by {
            V::lemma_laws(a[k], b[k], c[k]);
        }
        assert forall|k: KV| #[trigger] ab.contains_key(k) implies ab[k] == join::<KV, V>(b, a)[k] by {
            if a.contains_key(k) && b.contains_key(k) {
                V::lemma_laws(a[k], b[k], c[k]);
            }
        }
        assert(ab =~= join::<KV, V>(b, a));
    }
}

pub proof fn lemma_sorted_index<K: Key, V>(s: Seq<(K, V)>, i: int)
    requires
        sorted_keys(s),
        0 <= i < s.len(),
    ensures
        has_key(s, s[i].0@),
        key_index(s, s[i].0@) == i,
{
    let k = s[i].0@;
    assert(has_key(s, k));
    let j = key_index(s, k);
    K::lemma_order(k, k, k);
    if j < i {
        assert(K::precedes(s[j].0@, s[i].0@));
    } else if i < j {
        assert(K::precedes(s[i].0@, s[j].0@));
    }
}

/// A sorted sequence of entries stands for `m` when each entry agrees with `m`
/// and each key of `m` has an entry.
pub proof fn lemma_view_is<K: Key, V: View>(s: Seq<(K, V)>, m: Map<K::V, V::V>)
    requires
        sorted_keys(s),
        forall|i: int|
            0 <= i < s.len() ==> m.contains_key(#[trigger] s[i].0@) && m[s[i].0@] == s[i].1@,
        forall|k: K::V| m.contains_key(k) ==> has_key(s, k),
    ensures
        entries_view(s) == m,
{
    assert forall|k: K::V| #[trigger] m.contains_key(k) implies entries_view(s)[k] == m[k] by {
        assert(has_key(s, k));
        let i = choose|i: int| 0 <= i < s.len() && s[i].0@ == k;
        lemma_sorted_index(s, i);
    }
    assert(entries_view(s) =~= m);
}

/// Each entry of a sorted sequence is in the map it stands for.
pub proof fn lemma_view_entry<K: Key, V: View>(s: Seq<(K, V)>, i: int)
    requires
        sorted_keys(s),
        0 <= i < s.len(),
    ensures
        entries_view(s).contains_key(s[i].0@),
        entries_view(s)[s[i].0@] == s[i].1@,
{
    lemma_sorted_index(s, i);
}

/// Taking the last entry off a sorted sequence.
pub proof fn lemma_view_drop_last<K: Key, V: View>(s: Seq<(K, V)>)
    requires
        sorted_keys(s),
        s.len() > 0,
    ensures
        sorted_keys(s.drop_last()),
        !entries_view(s.drop_last()).contains_key(s.last().0@),
        entries_view(s) == entries_view(s.drop_last()).insert(s.last().0@, s.last().1@),
{
    let t = s.drop_last();
    let n = s.len() - 1;
    let m = entries_view(t).insert(s.last().0@, s.last().1@);
    K::lemma_order(s.last().0@, s.last().0@, s.last().0@);
    assert forall|i: int| 0 <= i < t.len() implies #[trigger] t[i].0@ != s.last().0@ by {
        assert(K::precedes(s[i].0@, s[n].0@));
    }
    assert forall|i: int|
        0 <= i < s.len() implies m.contains_key(#[trigger] s[i].0@) && m[s[i].0@] == s[i].1@ by {
        if i < n {
            lemma_view_entry(t, i);
        }
    }
    lemma_view_is(s, m);
}

pub proof fn lemma_entries_len<K: Key, V: View>(s: Seq<(K, V)>)
    requires
        sorted_keys(s),
    ensures
        entries_view(s).dom().finite(),
        entries_view(s).dom().len() == s.len(),
    decreases s.len(),
{
    if s.len() == 0 {
        assert(entries_view(s).dom() =~= Set::<K::V>::empty());
    } else {
        lemma_view_drop_last(s);
        lemma_entries_len(s.drop_last());
    }
}

/// The entries of a sequence, as views.
pub open spec fn viewed<K: View, V: View>(s: Seq<(K, V)>) -> Seq<(K::V, V::V)> {
    Seq::new(s.len(), |i: int| (s[i].0@, s[i].1@))
}

/// Viewed entries strictly increasing by key.
pub open spec fn sorted_views<K: Key, W>(t: Seq<(K::V, W)>) -> bool {
    forall|i: int, j: int| 0 <= i < j < t.len() ==> K::precedes(#[trigger] t[i].0, #[trigger] t[j].0)
}

pub open spec fn pairs_view<KV, W>(t: Seq<(KV, W)>) -> Map<KV, W> {
    Map::new(
        |k: KV| exists|i: int| 0 <= i < t.len() && t[i].0 == k,
        |k: KV| t[choose|i: int| 0 <= i < t.len() && t[i].0 == k].1,
    )
}

/// The canonical listing of a map: its entries in increasing key order.
pub open spec fn listing<K: Key, W>(m: Map<K::V, W>) -> Seq<(K::V, W)> {
    choose|t: Seq<(K::V, W)>| sorted_views::<K, W>(t) && pairs_view(t) == m
}

pub proof fn lemma_pairs_index<K: Key, W>(t: Seq<(K::V, W)>, i: int)
    requires
        sorted_views::<K, W>(t),
        0 <= i < t.len(),
    ensures
        pairs_view(t).contains_key(t[i].0),
        pairs_view(t)[t[i].0] == t[i].1,
{
    let k = t[i].0;
    assert(exists|j: int| 0 <= j < t.len() && t[j].0 == k);
    let j = choose|j: int| 0 <= j < t.len() && t[j].0 == k;
    K::lemma_order(k, k, k);
    if j < i {
        assert(K::precedes(t[j].0, t[i].0));
    } else if i < j {
        assert(K::precedes(t[i].0, t[j].0));
    }
}

proof fn lemma_pairs_drop_last<K: Key, W>(t: Seq<(K::V, W)>)
    requires
        sorted_views::<K, W>(t),
        t.len() > 0,
    ensures
        sorted_views::<K, W>(t.drop_last()),
        pairs_view(t.drop_last()) == pairs_view(t).remove(t.last().0),
{
    let u = t.drop_last();
    let n = t.len() - 1;
    let x = t.last().0;
    K::lemma_order(x, x, x);
    assert forall|i: int| 0 <= i < u.len() implies #[trigger] u[i].0 != x by {
        assert(K::precedes(t[i].0, t[n].0));
    }
    assert forall|k: K::V| #[trigger] pairs_view(u).contains_key(k) implies pairs_view(u)[k]
        == pairs_view(t)[k] by {
        let i = choose|i: int| 0 <= i < u.len() && u[i].0 == k;
        lemma_pairs_index::<K, W>(u, i);
        lemma_pairs_index::<K, W>(t, i);
    }
    assert forall|k: K::V| #[trigger] pairs_view(t).contains_key(k) && k != x implies pairs_view(
        u,
    ).contains_key(k) by {
        let i = choose|i: int| 0 <= i < t.len() && t[i].0 == k;
        assert(u[i].0 == k);
    }
    assert(pairs_view(u) =~= pairs_view(t).remove(x));
}

/// Two sorted listings of the same map are the same.
pub proof fn lemma_listing_unique<K: Key, W>(t1: Seq<(K::V, W)>, t2: Seq<(K::V, W)>)
    requires
        sorted_views::<K, W>(t1),
        sorted_views::<K, W>(t2),
        pairs_view(t1) == pairs_view(t2),
    ensures
        t1 == t2,
    decreases t1.len(),
{
    if t1.len() == 0 {
        if t2.len() > 0 {
            lemma_pairs_index::<K, W>(t2, 0);
        }
        assert(t1 =~= t2);
    } else {
        lemma_pairs_index::<K, W>(t1, t1.len() - 1);
        assert(t2.len() > 0);
        lemma_pairs_index::<K, W>(t2, t2.len() - 1);
        let x = t1.last().0;
        let y = t2.last().0;
        let i = choose|i: int| 0 <= i < t1.len() && t1[i].0 == y;
        let j = choose|j: int| 0 <= j < t2.len() && t2[j].0 == x;
        if x != y {
            assert(i < t1.len() - 1);
            assert(j < t2.len() - 1);
            assert(K::precedes(t1[i].0, t1[t1.len() - 1].0));
            assert(K::precedes(t2[j].0, t2[t2.len() - 1].0));
            K::lemma_order(x, y, x);
            assert(false);
        }
        lemma_pairs_drop_last::<K, W>(t1);
        lemma_pairs_drop_last::<K, W>(t2);
        lemma_listing_unique::<K, W>(t1.drop_last(), t2.drop_last());
        assert(t1 =~= t2.drop_last().push(t2.last()));
        assert(t2 =~= t2.drop_last().push(t2.last()));
    }
}

/// A sorted sequence of entries, viewed, is the listing of the map it stands
/// for.
pub proof fn lemma_listing<K: Key, V: View>(s: Seq<(K, V)>)
    requires
        sorted_keys(s),
    ensures
        listing::<K, V::V>(entries_view(s)) == viewed(s),
{
    let t = viewed(s);
    assert(sorted_views::<K, V::V>(t));
    assert forall|k: K::V| #[trigger] pairs_view(t).contains_key(k) implies entries_view(s).contains_key(k) && pairs_view(t)[k] == entries_view(s)[k] by {
        let i = choose|i: int| 0 <= i < t.len() && t[i].0 == k;
        lemma_pairs_index::<K, V::V>(t, i);
        lemma_view_entry(s, i);
    }
    assert forall|k: K::V| #[trigger] entries_view(s).contains_key(k) implies pairs_view(t).contains_key(k) by {
        let i = choose|i: int| 0 <= i < s.len() && s[i].0@ == k;
        assert(t[i].0 == k);
    }
    assert(pairs_view(t) =~= entries_view(s));
    let c = listing::<K, V::V>(entries_view(s));
    lemma_listing_unique::<K, V::V>(c, t);
}

/// A map from keys to values, held as a vector of entries sorted by key, so
/// that equal maps are held alike.
pub struct KeyMap<K: Key, V: View> {
    entries: Vec<(K, V)>,
}

impl<K: Key, V: View> View for KeyMap<K, V> {
    type V = Map<K::V, V::V>;

    open spec fn view(&self) -> Map<K::V, V::V> {
        entries_view(self.seq())
    }
}

impl<K: Key, V: View> KeyMap<K, V> {
    /// The entries in increasing key order.
    pub closed spec fn seq(&self) -> Seq<(K, V)> {
        self.entries@
    }

    #[verifier::type_invariant]
    pub closed spec fn inv(self) -> bool {
        sorted_keys(self.entries@)
    }

    pub proof fn lemma_sorted(self)
        requires
            self.inv(),
        ensures
            sorted_keys(self.seq()),
    {
    }

    pub fn new() -> (r: Self)
        ensures
            r@ == Map::<K::V, V::V>::empty(),
            r.seq().len() == 0,
    {
        let r = KeyMap { entries: Vec::new() };
        assert(r@ =~= Map::<K::V, V::V>::empty());
        r
    }

    pub fn len(&self) -> (n: usize)
        ensures
            n == self.seq().len(),
            n == self@.len(),
            self@.dom().finite(),
    {
        proof {
            use_type_invariant(self);
            lemma_entries_len(self.seq());
        }
        self.entries.len()
    }

    /// The entry at position `i` in key order.
    pub fn entry(&self, i: usize) -> (e: &(K, V))
        requires
            i < self.seq().len(),
        ensures
            *e == self.seq()[i as int],
    {
        &self.entries[i]
    }

    /// Moves the entries out, leaving the map empty.
    fn take_entries(&mut self) -> (r: Vec<(K, V)>)
        ensures
            r@ == old(self).seq(),
            sorted_keys(r@),
    {
        let mut tmp = KeyMap::new();
        std::mem::swap(self, &mut tmp);
        proof {
            use_type_invariant(&tmp);
        }
        tmp.entries
    }

    /// The position of `k`, or where it would be inserted.
    fn find(&self, k: &K) -> (r: Result<usize, usize>)
        ensures
            match r {
                Ok(i) => i < self.seq().len() && self.seq()[i as int].0@ == k@,
                Err(p) => {
                    &&& p <= self.seq().len()
                    &&& !has_key(self.seq(), k@)
                    &&& forall|i: int| 0 <= i < p ==> K::precedes(#[trigger] self.seq()[i].0@, k@)
                    &&& forall|j: int|
                        p <= j < self.seq().len() ==> K::precedes(k@, #[trigger] self.seq()[j].0@)
                },
            },
    {
        let ghost s = self.seq();
        proof {
            use_type_invariant(self);
            K::lemma_order(k@, k@, k@);
        }
        let mut i: usize = 0;
        while i < self.entries.len()
            invariant
                s == self.seq(),
                sorted_keys(s),
                i <= s.len(),
                !K::precedes(k@, k@),
                forall|j: int| 0 <= j < i ==> K::precedes(#[trigger] s[j].0@, k@),
            decreases s.len() - i,
        {
            match self.entries[i].0.compare(k) {
                Cmp::Less => {
                    i = i + 1;
                },
                Cmp::Equal => {
                    return Ok(i);
                },
                Cmp::Greater => {
                    assert forall|j: int| i <= j < s.len() implies K::precedes(
                        k@,
                        #[trigger] s[j].0@,
                    ) by {
                        if j > i {
                            K::lemma_order(k@, s[i as int].0@, s[j].0@);
                        }
                    }
                    assert(!has_key(s, k@));
                    return Err(i);
                },
            }
        }
        Err(i)
    }

    pub fn get(&self, k: &K) -> (r: Option<&V>)
        ensures
            match r {
                Some(v) => self@.contains_key(k@) && v@ == self@[k@],
                None => !self@.contains_key(k@),
            },
    {
        match self.find(k) {
            Ok(i) => {
                proof {
                    use_type_invariant(self);
                    lemma_view_entry(self.seq(), i as int);
                }
                Some(&self.entries[i].1)
            },
            Err(_) => None,
        }
    }

    pub fn contains(&self, k: &K) -> (r: bool)
        ensures
            r == self@.contains_key(k@),
    {
        match self.get(k) {
            Some(_) => true,
            None => false,
        }
    }

    pub fn insert(&mut self, k: K, v: V)
        ensures
            final(self)@ == old(self)@.insert(k@, v@),
    {
        proof {
            use_type_invariant(&*self);
        }
        let ghost s0 = self.seq();
        let ghost m = self@.insert(k@, v@);
        match self.find(&k) {
            Ok(i) => {
                let mut entries = self.take_entries();
                entries.remove(i);
                entries.insert(i, (k, v));
                let ghost s1 = entries@;
                assert forall|a: int, b: int| 0 <= a < b < s1.len() implies K::precedes(
                    #[trigger] s1[a].0@,
                    #[trigger] s1[b].0@,
                ) by {
                    assert(K::precedes(s0[a].0@, s0[b].0@));
                }
                assert forall|j: int|
                    0 <= j < s1.len() implies m.contains_key(#[trigger] s1[j].0@) && m[s1[j].0@]
                    == s1[j].1@ by {
                    if j != i {
                        lemma_view_entry(s0, j);
                        lemma_sorted_index(s0, j);
                        lemma_sorted_index(s0, i as int);
                        assert(s1[j] == s0[j]);
                    }
                }
                assert forall|key: K::V| m.contains_key(key) implies has_key(s1, key) by {
                    if key != k@ {
                        let j = choose|j: int| 0 <= j < s0.len() && s0[j].0@ == key;
                        assert(s1[j].0@ == key);
                    } else {
                        assert(s1[i as int].0@ == key);
                    }
                }
                proof {
                    lemma_view_is(s1, m);
                }
                *self = KeyMap { entries };
            },
            Err(p) => {
                proof {
                    K::lemma_order(k@, k@, k@);
                }
                let mut entries = self.take_entries();
                entries.insert(p, (k, v));
                let ghost s1 = entries@;
                assert forall|a: int, b: int| 0 <= a < b < s1.len() implies K::precedes(
                    #[trigger] s1[a].0@,
                    #[trigger] s1[b].0@,
                ) by {
                    if b < p {
                        assert(K::precedes(s0[a].0@, s0[b].0@));
                    } else if a > p {
                        assert(K::precedes(s0[a - 1].0@, s0[b - 1].0@));
                    } else if a == p {
                        assert(K::precedes(k@, s0[b - 1].0@));
                    } else if b == p {
                        assert(K::precedes(s0[a].0@, k@));
                    } else {
                        K::lemma_order(s0[a].0@, k@, s0[b - 1].0@);
                    }
                }
                assert forall|j: int|
                    0 <= j < s1.len() implies m.contains_key(#[trigger] s1[j].0@) && m[s1[j].0@]
                    == s1[j].1@ by {
                    if j < p {
                        lemma_view_entry(s0, j);
                        assert(s1[j] == s0[j]);
                        assert(K::precedes(s0[j].0@, k@));
                    } else if j > p {
                        lemma_view_entry(s0, j - 1);
                        assert(s1[j] == s0[j - 1]);
                        assert(K::precedes(k@, s0[j - 1].0@));
                    } else {
                        assert(s1[j].0@ == k@);
                        assert(s1[j].1@ == v@);
                    }
                }
                assert forall|key: K::V| m.contains_key(key) implies has_key(s1, key) by {
                    if key != k@ {
                        let j = choose|j: int| 0 <= j < s0.len() && s0[j].0@ == key;
                        if j < p {
                            assert(s1[j].0@ == key);
                        } else {
                            assert(s1[j + 1].0@ == key);
                        }
                    } else {
                        assert(s1[p as int].0@ == key);
                    }
                }
                proof {
                    lemma_view_is(s1, m);
                }
                *self = KeyMap { entries };
            },
        }
    }
    /// Removes the entry of `k`, handing back its value.
    pub fn take(&mut self, k: &K) -> (r: Option<V>)
        ensures
            final(self)@ == old(self)@.remove(k@),
            match r {
                Some(v) => old(self)@.contains_key(k@) && v@ == old(self)@[k@],
                None => !old(self)@.contains_key(k@),
            },
    {
        proof {
            use_type_invariant(&*self);
        }
        let ghost s0 = self.seq();
        let ghost m = self@.remove(k@);
        match self.find(k) {
            Ok(i) => {
                proof {
                    lemma_view_entry(s0, i as int);
                }
                let mut entries = self.take_entries();
                let e = entries.remove(i);
                let ghost s1 = entries@;
                assert forall|a: int, b: int| 0 <= a < b < s1.len() implies K::precedes(
                    #[trigger] s1[a].0@,
                    #[trigger] s1[b].0@,
                ) by {
                    if b < i {
                        assert(K::precedes(s0[a].0@, s0[b].0@));
                    } else if a >= i {
                        assert(K::precedes(s0[a + 1].0@, s0[b + 1].0@));
                    } else {
                        assert(K::precedes(s0[a].0@, s0[b + 1].0@));
                    }
                }
                assert forall|j: int|
                    0 <= j < s1.len() implies m.contains_key(#[trigger] s1[j].0@) && m[s1[j].0@]
                    == s1[j].1@ by {
                    let j0 = if j < i {
                        j
                    } else {
                        j + 1
                    };
                    assert(s1[j] == s0[j0]);
                    lemma_view_entry(s0, j0);
                    lemma_sorted_index(s0, j0);
                    lemma_sorted_index(s0, i as int);
                }
                assert forall|key: K::V| m.contains_key(key) implies has_key(s1, key) by {
                    let j = choose|j: int| 0 <= j < s0.len() && s0[j].0@ == key;
                    if j < i {
                        assert(s1[j].0@ == key);
                    } else {
                        assert(j != i);
                        assert(s1[j - 1].0@ == key);
                    }
                }
                proof {
                    lemma_view_is(s1, m);
                }
                *self = KeyMap { entries };
                Some(e.1)
            },
            Err(_) => {
                assert(m =~= self@);
                None
            },
        }
    }

    /// The entries in increasing key order, as a vector.
    pub fn into_entries(self) -> (r: Vec<(K, V)>)
        ensures
            r@ == self.seq(),
            sorted_keys(r@),
    {
        proof {
            use_type_invariant(&self);
        }
        self.entries
    }
}

impl<K: Key, V: Mergeable> KeyMap<K, V> {
    /// Merges every entry of `other` into this map.
    pub fn absorb(&mut self, other: Self)
        ensures
            final(self)@ == join::<K::V, V>(old(self)@, other@),
    {
        let ghost target = join::<K::V, V>(self@, other@);
        let mut rest = other.into_entries();
        while rest.len() > 0
            invariant
                sorted_keys(rest@),
                join::<K::V, V>(self@, entries_view(rest@)) == target,
            decreases rest.len(),
        {
            proof {
                lemma_view_drop_last(rest@);
            }
            let (k, v) = rest.pop().unwrap();
            proof {
                lemma_join_step::<K::V, V>(self@, entries_view(rest@), k@, v@);
            }
            let ghost before = self@;
            match self.take(&k) {
                Some(mut local) => {
                    local.merge_from(v);
                    self.insert(k, local);
                    assert(self@ =~= join_step::<K::V, V>(before, k@, v@));
                },
                None => {
                    self.insert(k, v);
                    assert(self@ =~= join_step::<K::V, V>(before, k@, v@));
                },
            }
        }
        proof {
            assert(entries_view(rest@) =~= Map::<K::V, V::V>::empty());
            lemma_join_empty::<K::V, V>(self@);
        }
    }
}

impl<K: Key, V: Mergeable> Mergeable for KeyMap<K, V> {
    open spec fn merged(a: Map<K::V, V::V>, b: Map<K::V, V::V>) -> Map<K::V, V::V> {
        join::<K::V, V>(a, b)
    }

    open spec fn compatible(a: Map<K::V, V::V>, b: Map<K::V, V::V>) -> bool {
        join_compatible::<K::V, V>(a, b)
    }

    proof fn lemma_laws(a: Map<K::V, V::V>, b: Map<K::V, V::V>, c: Map<K::V, V::V>) {
        lemma_join_laws::<K::V, V>(a, b, c);
    }

    fn merge_from(&mut self, other: Self) {
        self.absorb(other);
    }
}

} // verus!
