use vstd::prelude::*;

use crate::laws::lemma_merge_idempotent;
use crate::snapshot::{hex_digit, hex_digit_str, state_json};
use crate::state::{merged_state, MayaState, MayaView};

verus! {

/// The SHA-256 digest of a byte sequence.
pub uninterp spec fn sha256_of(data: Seq<u8>) -> Seq<u8>;

/// Relies on sha2's `Sha256` through `Digest::digest`: the SHA-256 digest of
/// the bytes, which is 32 bytes long.
#[verifier::external_body]
fn sha256(data: &[u8]) -> (r: Vec<u8>)
    ensures
        r@ == sha256_of(data@),
        r@.len() == 32,
{
    <sha2::Sha256 as sha2::Digest>::digest(data).to_vec()
}

/// Lower-case hexadecimal, two digits per byte.
pub open spec fn hex_of(b: Seq<u8>) -> Seq<char>
    decreases b.len(),
{
    if b.len() == 0 {
        Seq::empty()
    } else {
        hex_of(b.drop_last()) + hex_digit((b.last() / 16) as u32) + hex_digit((b.last() % 16) as u32)
    }
}

/// The digest of a state: the hexadecimal SHA-256 of its snapshot document.
pub open spec fn state_digest(s: MayaView) -> Seq<char> {
    hex_of(sha256_of(vstd::utf8::encode_utf8(state_json(s))))
}

/// Writes bytes as lower-case hexadecimal.
pub fn to_hex(bytes: &[u8]) -> (r: String)
    ensures
        r@ == hex_of(bytes@),
{
    let mut out = String::new();
    let n = bytes.len();
    let mut i: usize = 0;
    while i < n
        invariant
            n == bytes@.len(),
            i <= n,
            out@ == hex_of(bytes@.take(i as int)),
        decreases n - i,
    {
        let b = bytes[i];
        out.append(hex_digit_str((b / 16) as u32));
        out.append(hex_digit_str((b % 16) as u32));
        assert(bytes@.take(i + 1).drop_last() =~= bytes@.take(i as int));
        i = i + 1;
    }
    assert(bytes@.take(n as int) =~= bytes@);
    out
}

/// The hexadecimal SHA-256 digest of some bytes.
pub fn digest_bytes(data: &[u8]) -> (r: String)
    ensures
        r@ == hex_of(sha256_of(data@)),
        r@.len() == 64,
{
    let d = sha256(data);
    let r = to_hex(d.as_slice());
    proof {
        lemma_hex_len(d@);
    }
    r
}

proof fn lemma_hex_len(b: Seq<u8>)
    ensures
        hex_of(b).len() == 2 * b.len(),
    decreases b.len(),
{
    if b.len() > 0 {
        lemma_hex_len(b.drop_last());
        reveal_strlit("0123456789abcdef");
    }
}

impl MayaState {
    /// A fixed-length fingerprint of the state, for cheap change detection.
    pub fn hash(&self) -> (r: String)
        ensures
            r@ == state_digest(self@),
    {
        let json = self.to_json();
        digest_bytes(json.as_str().as_bytes())
    }
}

/// Merging the same snapshot a second time leaves the digest as the first
/// merge left it.
pub proof fn lemma_duplicate_merge_digest(a: MayaView, b: MayaView)
    ensures
        state_digest(merged_state(merged_state(a, b), b)) == state_digest(merged_state(a, b)),
{
    lemma_merge_idempotent(a, b);
}

} // verus!
