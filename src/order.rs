use vstd::prelude::*;

verus! {

/// Outcome of a three-way comparison.
pub enum Cmp {
    Less,
    Equal,
    Greater,
}

/// Lexicographic strict order on byte sequences: the order Rust uses for `str`.
pub open spec fn bytes_lt(a: Seq<u8>, b: Seq<u8>) -> bool
    decreases a.len(),
{
    if b.len() == 0 {
        false
    } else if a.len() == 0 {
        true
    } else if a[0] != b[0] {
        a[0] < b[0]
    } else {
        bytes_lt(a.drop_first(), b.drop_first())
    }
}

pub proof fn lemma_bytes_lt_irreflexive(a: Seq<u8>)
    ensures
        !bytes_lt(a, a),
    decreases a.len(),
{
    if a.len() > 0 {
        lemma_bytes_lt_irreflexive(a.drop_first());
    }
}

pub proof fn lemma_bytes_lt_transitive(a: Seq<u8>, b: Seq<u8>, c: Seq<u8>)
    requires
        bytes_lt(a, b),
        bytes_lt(b, c),
    ensures
        bytes_lt(a, c),
    decreases a.len(),
{
    if a.len() > 0 && a[0] == b[0] && b[0] == c[0] {
        lemma_bytes_lt_transitive(a.drop_first(), b.drop_first(), c.drop_first());
    }
}

pub proof fn lemma_bytes_lt_total(a: Seq<u8>, b: Seq<u8>)
    ensures
        a == b || bytes_lt(a, b) || bytes_lt(b, a),
    decreases a.len(),
{
    if a.len() == 0 && b.len() == 0 {
        assert(a =~= b);
    } else if a.len() > 0 && b.len() > 0 && a[0] == b[0] {
        lemma_bytes_lt_total(a.drop_first(), b.drop_first());
        if a.drop_first() == b.drop_first() {
            assert(a =~= seq![a[0]] + a.drop_first());
            assert(b =~= seq![b[0]] + b.drop_first());
        }
    }
}

/// The order on strings: byte-wise on their UTF-8 encoding.
pub open spec fn str_lt(a: Seq<char>, b: Seq<char>) -> bool {
    bytes_lt(vstd::utf8::encode_utf8(a), vstd::utf8::encode_utf8(b))
}

/// Keys of the sorted containers: a strict total order on their views, and an
/// executable comparison that agrees with it.
pub trait Key: View + Sized {
    spec fn precedes(a: Self::V, b: Self::V) -> bool;

    proof fn lemma_order(a: Self::V, b: Self::V, c: Self::V)
        ensures
            !Self::precedes(a, a),
            Self::precedes(a, b) && Self::precedes(b, c) ==> Self::precedes(a, c),
            a == b || Self::precedes(a, b) || Self::precedes(b, a),
    ;

    fn compare(&self, other: &Self) -> (c: Cmp)
        ensures
            (match c {
                Cmp::Less => Self::precedes(self@, other@),
                Cmp::Equal => self@ == other@,
                Cmp::Greater => Self::precedes(other@, self@),
            }),
    ;

    fn duplicate(&self) -> (r: Self)
        ensures
            r@ == self@,
    ;
}

fn compare_bytes(a: &[u8], b: &[u8]) -> (c: Cmp)
    ensures
        (match c {
            Cmp::Less => bytes_lt(a@, b@),
            Cmp::Equal => a@ == b@,
            Cmp::Greater => bytes_lt(b@, a@),
        }),
{
    let mut i: usize = 0;
    assert(a@.skip(0) =~= a@);
    assert(b@.skip(0) =~= b@);
    while i < a.len() && i < b.len()
        invariant
            i <= a@.len(),
            i <= b@.len(),
            a@.take(i as int) == b@.take(i as int),
            bytes_lt(a@, b@) == bytes_lt(a@.skip(i as int), b@.skip(i as int)),
            bytes_lt(b@, a@) == bytes_lt(b@.skip(i as int), a@.skip(i as int)),
        decreases a@.len() - i,
    {
        if a[i] != b[i] {
            if a[i] < b[i] {
                return Cmp::Less;
            } else {
                return Cmp::Greater;
            }
        }
        assert(a@.skip(i as int).drop_first() =~= a@.skip(i + 1));
        assert(b@.skip(i as int).drop_first() =~= b@.skip(i + 1));
        assert(a@.take(i + 1) =~= a@.take(i as int).push(a@[i as int]));
        assert(b@.take(i + 1) =~= b@.take(i as int).push(b@[i as int]));
        i = i + 1;
    }
    if a.len() == b.len() {
        assert(a@ =~= a@.take(i as int));
        assert(b@ =~= b@.take(i as int));
        Cmp::Equal
    } else if i == a.len() {
        Cmp::Less
    } else {
        Cmp::Greater
    }
}

impl Key for String {
    open spec fn precedes(a: Seq<char>, b: Seq<char>) -> bool {
        str_lt(a, b)
    }

    proof fn lemma_order(a: Seq<char>, b: Seq<char>, c: Seq<char>) {
        let (ea, eb, ec) = (
            vstd::utf8::encode_utf8(a),
            vstd::utf8::encode_utf8(b),
            vstd::utf8::encode_utf8(c),
        );
        lemma_bytes_lt_irreflexive(ea);
        if bytes_lt(ea, eb) && bytes_lt(eb, ec) {
            lemma_bytes_lt_transitive(ea, eb, ec);
        }
        lemma_bytes_lt_total(ea, eb);
        vstd::utf8::encode_utf8_decode_utf8(a);
        vstd::utf8::encode_utf8_decode_utf8(b);
    }

    fn compare(&self, other: &Self) -> (c: Cmp) {
        let c = compare_bytes(self.as_str().as_bytes(), other.as_str().as_bytes());
        proof {
            vstd::utf8::encode_utf8_decode_utf8(self@);
            vstd::utf8::encode_utf8_decode_utf8(other@);
        }
        c
    }

    fn duplicate(&self) -> (r: Self) {
        self.clone()
    }
}

/// A tag names one add event: the writing replica and its clock reading.
pub type Tag = (String, u64);

impl Key for (String, u64) {
    open spec fn precedes(a: (Seq<char>, u64), b: (Seq<char>, u64)) -> bool {
        str_lt(a.0, b.0) || (a.0 == b.0 && a.1 < b.1)
    }

    proof fn lemma_order(a: (Seq<char>, u64), b: (Seq<char>, u64), c: (Seq<char>, u64)) {
        String::lemma_order(a.0, b.0, c.0);
        String::lemma_order(b.0, a.0, c.0);
        String::lemma_order(a.0, c.0, b.0);
    }

    fn compare(&self, other: &Self) -> (c: Cmp) {
        match self.0.compare(&other.0) {
            Cmp::Less => Cmp::Less,
            Cmp::Greater => Cmp::Greater,
            Cmp::Equal => {
                if self.1 < other.1 {
                    Cmp::Less
                } else if self.1 == other.1 {
                    Cmp::Equal
                } else {
                    Cmp::Greater
                }
            },
        }
    }

    fn duplicate(&self) -> (r: Self) {
        (self.0.clone(), self.1)
    }
}

} // verus!
