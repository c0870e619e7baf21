use vstd::prelude::*;

use crate::gset::GSet;
use crate::keymap::{has_key, join, lemma_view_entry, KeyMap};
use crate::merge::Mergeable;
use crate::order::{Key, Tag};

verus! {

/// A tag as seen in specifications: writer id and timestamp.
pub type TagView = (Seq<char>, u64);

/// An add-wins observed-remove set of strings. Each add carries a unique tag;
/// a remove tombstones the tags it has seen, so an add it has not seen
/// survives it.
pub struct AWORSet {
    pub adds: KeyMap<String, KeyMap<Tag, ()>>,
    pub removes: KeyMap<Tag, ()>,
}

#[verifier::ext_equal]
pub struct AWORSetView {
    /// For each value, the tags of the adds seen for it.
    pub adds: Map<Seq<char>, Set<TagView>>,
    /// Tombstoned tags.
    pub removes: Set<TagView>,
}

pub open spec fn tag_sets(m: Map<Seq<char>, Map<TagView, ()>>) -> Map<Seq<char>, Set<TagView>> {
    Map::new(|v: Seq<char>| m.contains_key(v), |v: Seq<char>| m[v].dom())
}

/// The tags known for `v` (none if `v` was never added).
pub open spec fn tags_of(s: AWORSetView, v: Seq<char>) -> Set<TagView> {
    if s.adds.contains_key(v) {
        s.adds[v]
    } else {
        Set::empty()
    }
}

/// The values present: those with an add whose tag is not tombstoned.
pub open spec fn live(s: AWORSetView) -> Set<Seq<char>> {
    Set::new(
        |v: Seq<char>|
            s.adds.contains_key(v) && exists|t: TagView| #[trigger]
                s.adds[v].contains(t) && !s.removes.contains(t),
    )
}

/// The set after an add of `v` under `tag`.
pub open spec fn added(s: AWORSetView, v: Seq<char>, tag: TagView) -> AWORSetView {
    AWORSetView { adds: s.adds.insert(v, tags_of(s, v).insert(tag)), removes: s.removes }
}

/// The set after a remove of `v`: every tag seen for `v` is tombstoned.
pub open spec fn removed(s: AWORSetView, v: Seq<char>) -> AWORSetView {
    AWORSetView { adds: s.adds, removes: s.removes.union(tags_of(s, v)) }
}

impl View for AWORSet {
    type V = AWORSetView;

    open spec fn view(&self) -> AWORSetView {
        AWORSetView { adds: tag_sets(self.adds@), removes: self.removes@.dom() }
    }
}

impl AWORSet {
    pub fn new() -> (r: Self)
        ensures
            r@.adds == Map::<Seq<char>, Set<TagView>>::empty(),
            r@.removes == Set::<TagView>::empty(),
    {
        let r = AWORSet { adds: KeyMap::new(), removes: KeyMap::new() };
        assert(r@.adds =~= Map::<Seq<char>, Set<TagView>>::empty());
        r
    }

    /// Records an add of `value` under `tag`.
    pub fn add(&mut self, value: String, tag: Tag)
        ensures
            final(self)@ == added(old(self)@, value@, tag@),
    {
        let ghost old_view = self@;
        let mut tags = match self.adds.take(&value) {
            Some(t) => t,
            None => KeyMap::new(),
        };
        assert(tags@.dom() =~= tags_of(old_view, value@));
        tags.insert(tag, ());
        assert(tags@.dom() =~= tags_of(old_view, value@).insert(tag@));
        self.adds.insert(value, tags);
        assert(self@ =~= added(old_view, value@, tag@));
    }

    /// Tombstones every tag seen so far for `value`.
    pub fn remove(&mut self, value: &String)
        ensures
            final(self)@ == removed(old(self)@, value@),
    {
        let ghost old_view = self@;
        match self.adds.get(value) {
            Some(tags) => {
                let n = tags.len();
                let mut j: usize = 0;
                while j < n
                    invariant
                        n == tags.seq().len(),
                        j <= n,
                        self@.adds == old_view.adds,
                        self@.removes == old_view.removes.union(
                            Set::new(
                                |t: TagView| exists|i: int| 0 <= i < j && tags.seq()[i].0@ == t,
                            ),
                        ),
                    decreases n - j,
                {
                    let tag = tags.entry(j).0.duplicate();
                    self.removes.insert(tag, ());
                    assert(self@.removes =~= old_view.removes.union(
                        Set::new(
                            |t: TagView| exists|i: int| 0 <= i < j + 1 && tags.seq()[i].0@ == t,
                        ),
                    ));
                    j = j + 1;
                }
                assert(Set::new(
                    |t: TagView| exists|i: int| 0 <= i < n && tags.seq()[i].0@ == t,
                ) =~= tags@.dom());
                assert(self@ =~= removed(old_view, value@));
            },
            None => {
                assert(self@ =~= removed(old_view, value@));
            },
        }
    }

    /// Set union of the tags of each value, and of the tombstones.
    pub fn merge(&mut self, other: AWORSet)
        ensures
            final(self)@ == Self::merged(old(self)@, other@),
    {
        let ghost a = self@;
        let ghost b = other@;
        let ghost ra = self.adds@;
        let ghost rb = other.adds@;
        let ghost da = self.removes@;
        let ghost db = other.removes@;
        self.adds.absorb(other.adds);
        self.removes.absorb(other.removes);
        assert forall|v: Seq<char>| ra.contains_key(v) && rb.contains_key(v) implies
            #[trigger] join::<TagView, ()>(ra[v], rb[v]).dom() == ra[v].dom().union(rb[v].dom()) by {
            assert(join::<TagView, ()>(ra[v], rb[v]).dom() =~= ra[v].dom().union(rb[v].dom()));
        }
        assert forall|v: Seq<char>| #[trigger] self@.adds.contains_key(v) implies self@.adds[v]
            == Self::merged(a, b).adds[v] by {
            assert(tags_of(a, v).union(tags_of(b, v)) =~= self@.adds[v]);
        }
        assert(self@.adds =~= Self::merged(a, b).adds);
        assert(self@.removes =~= Self::merged(a, b).removes);
    }

    /// The values present.
    pub fn elements(&self) -> (r: GSet)
        ensures
            r@ == live(self@),
    {
        proof {
            use_type_invariant(&self.adds);
            self.adds.lemma_sorted();
        }
        let mut result = GSet::new();
        let n = self.adds.len();
        let mut i: usize = 0;
        while i < n
            invariant
                n == self.adds.seq().len(),
                i <= n,
                crate::keymap::sorted_keys(self.adds.seq()),
                forall|v: Seq<char>|
                    #[trigger] result@.contains(v) <==> (live(self@).contains(v) && has_key(
                        self.adds.seq().take(i as int),
                        v,
                    )),
            decreases n - i,
        {
            let entry = self.adds.entry(i);
            let tags = &entry.1;
            proof {
                lemma_view_entry(self.adds.seq(), i as int);
            }
            let m = tags.len();
            let mut j: usize = 0;
            let mut any = false;
            while j < m
                invariant
                    m == tags.seq().len(),
                    j <= m,
                    any == exists|k: int| 0 <= k < j && !self.removes@.contains_key(#[trigger] tags.seq()[k].0@),
                decreases m - j,
            {
                if !self.removes.contains(&tags.entry(j).0) {
                    any = true;
                }
                j = j + 1;
            }
            let ghost v = entry.0@;
            proof {
                if any {
                    let k = choose|k: int| 0 <= k < m && !self.removes@.contains_key(#[trigger] tags.seq()[k].0@);
                    assert(has_key(tags.seq(), tags.seq()[k].0@));
                    assert(self@.adds[v].contains(tags.seq()[k].0@));
                } else {
                    assert forall|t: TagView| #[trigger] self@.adds[v].contains(t) implies self@.removes.contains(t) by {
                        let k = choose|k: int| 0 <= k < m && tags.seq()[k].0@ == t;
                        assert(self.removes@.contains_key(tags.seq()[k].0@));
                    }
                }
            }
            if any {
                result.add(entry.0.duplicate());
            }
            let ghost t0 = self.adds.seq().take(i as int);
            let ghost t1 = self.adds.seq().take(i + 1);
            assert forall|w: Seq<char>| #[trigger] has_key(t1, w) <==> (has_key(t0, w) || w == v) by {
                if has_key(t1, w) {
                    let k = choose|k: int| 0 <= k < t1.len() && t1[k].0@ == w;
                    if k < i {
                        assert(t0[k].0@ == w);
                    }
                }
                if has_key(t0, w) {
                    let k = choose|k: int| 0 <= k < t0.len() && t0[k].0@ == w;
                    assert(t1[k].0@ == w);
                }
                if w == v {
                    assert(t1[i as int].0@ == w);
                }
            }
            i = i + 1;
        }
        assert forall|v: Seq<char>| #[trigger] result@.contains(v) <==> live(self@).contains(v) by {
            assert(self.adds.seq().take(n as int) =~= self.adds.seq());
        }
        assert(result@ =~= live(self@));
        result
    }
}

impl Mergeable for AWORSet {
    open spec fn merged(a: AWORSetView, b: AWORSetView) -> AWORSetView {
        AWORSetView {
            adds: Map::new(
                |v: Seq<char>| a.adds.contains_key(v) || b.adds.contains_key(v),
                |v: Seq<char>| tags_of(a, v).union(tags_of(b, v)),
            ),
            removes: a.removes.union(b.removes),
        }
    }

    open spec fn compatible(a: AWORSetView, b: AWORSetView) -> bool {
        true
    }

    proof fn lemma_laws(a: AWORSetView, b: AWORSetView, c: AWORSetView) {
        let ab = Self::merged(a, b);
        let bc = Self::merged(b, c);
        assert forall|v: Seq<char>| #[trigger] a.adds.contains_key(v) implies a.adds[v].union(a.adds[v]) == a.adds[v] by {
            assert(a.adds[v].union(a.adds[v]) =~= a.adds[v]);
        }
        assert(Self::merged(a, a) =~= a);
        assert forall|v: Seq<char>| #[trigger] ab.adds.contains_key(v) implies tags_of(ab, v).union(tags_of(b, v)) == tags_of(ab, v) by {
            assert(tags_of(ab, v).union(tags_of(b, v)) =~= tags_of(ab, v));
        }
        assert(Self::merged(ab, b) =~= ab);
        assert forall|v: Seq<char>| #[trigger] Self::merged(ab, c).adds.contains_key(v) implies Self::merged(ab, c).adds[v] == Self::merged(a, bc).adds[v] by {
            assert(tags_of(ab, v).union(tags_of(c, v)) =~= tags_of(a, v).union(tags_of(bc, v)));
        }
        assert(Self::merged(ab, c) =~= Self::merged(a, bc));
        assert forall|v: Seq<char>| #[trigger] ab.adds.contains_key(v) implies ab.adds[v] == Self::merged(b, a).adds[v] by {
            assert(tags_of(a, v).union(tags_of(b, v)) =~= tags_of(b, v).union(tags_of(a, v)));
        }
        assert(ab =~= Self::merged(b, a));
    }

    fn merge_from(&mut self, other: Self) {
        self.merge(other);
    }
}

/// Add wins: an add that a remove has not seen survives the remove once the
/// two branches are merged.
pub proof fn lemma_add_wins(s: AWORSetView, v: Seq<char>, tag1: TagView, tag2: TagView)
    requires
        tags_of(s, v).contains(tag1),
        !tags_of(s, v).contains(tag2),
        !s.removes.contains(tag2),
    ensures
        live(AWORSet::merged(removed(s, v), added(s, v, tag2))).contains(v),
{
    let m = AWORSet::merged(removed(s, v), added(s, v, tag2));
    assert(m.adds[v].contains(tag2));
}

} // verus!
