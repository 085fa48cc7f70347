//! BLAKE2b digests.
//!
//! The hash function itself is the `blake2b_simd` crate's. Nothing here
//! looks inside it: a digest is the value of an unspecified function of the
//! bytes that were hashed, and all that is known of that value is its length.

use vstd::prelude::*;

verus! {

/// The number of bytes in a digest.
pub const DIGEST_BYTES: usize = 64;

/// The BLAKE2b digest, with default parameters, of `input`.
pub uninterp spec fn blake2b_digest(input: Seq<u8>) -> Seq<u8>;

/// Calls `blake2b_simd::blake2b` and copies the bytes of the `Hash` it
/// returns (`Hash::as_bytes`).
///
/// Trusted: the bytes are the digest of `input`, a function of `input`
/// alone, and there are 64 of them, the crate's default output length.
#[verifier::external_body]
fn blake2b_bytes(input: &[u8]) -> (out: Vec<u8>)
    ensures
        out@ == blake2b_digest(input@),
        out@.len() == DIGEST_BYTES,
{
    blake2b_simd::blake2b(input).as_bytes().to_vec()
}

/// The bytes of a digest.
#[derive(Clone, Debug, PartialEq, Eq)]
pub struct Digest {
    pub bytes: Vec<u8>,
}

impl View for Digest {
    type V = Seq<u8>;

    open spec fn view(&self) -> Seq<u8> {
        self.bytes@
    }
}

/// The views of a list of digests, in order.
pub open spec fn digest_views(list: Seq<Digest>) -> Seq<Seq<u8>> {
    Seq::new(list.len(), |i: int| list[i]@)
}

/// The digest of two digests, the left one's bytes followed by the right
/// one's.
pub open spec fn pair_digest(left: Seq<u8>, right: Seq<u8>) -> Seq<u8> {
    blake2b_digest(left + right)
}

/// `first` and `second` are different inputs with the same digest.
pub open spec fn collides(first: Seq<u8>, second: Seq<u8>) -> bool {
    first != second && blake2b_digest(first) == blake2b_digest(second)
}

/// Some two different inputs have the same digest.
pub open spec fn collision_exists() -> bool {
    exists|first: Seq<u8>, second: Seq<u8>| collides(first, second)
}

/// Two inputs with the same digest are the same input, or a collision.
pub proof fn lemma_same_digest(first: Seq<u8>, second: Seq<u8>)
    requires
        blake2b_digest(first) == blake2b_digest(second),
    ensures
        first == second || collision_exists(),
{
    if first != second {
        assert(collides(first, second));
    }
}

/// What is left of two equal strings after the same ending is taken off is
/// equal.
pub proof fn lemma_same_ending(first: Seq<u8>, second: Seq<u8>, ending: Seq<u8>)
    requires
        first + ending == second + ending,
    ensures
        first == second,
{
    assert((first + ending).len() == first.len() + ending.len());
    assert((second + ending).len() == second.len() + ending.len());
    assert(first.len() == second.len());
    assert forall|i: int| 0 <= i < first.len() implies first[i] == second[i] by {
        assert((first + ending)[i] == first[i]);
        assert((second + ending)[i] == second[i]);
    }
    assert(first =~= second);
}

/// What is left of two equal strings after the same beginning is taken off
/// is equal.
pub proof fn lemma_same_beginning(beginning: Seq<u8>, first: Seq<u8>, second: Seq<u8>)
    requires
        beginning + first == beginning + second,
    ensures
        first == second,
{
    assert((beginning + first).len() == beginning.len() + first.len());
    assert((beginning + second).len() == beginning.len() + second.len());
    assert(first.len() == second.len());
    assert forall|i: int| 0 <= i < first.len() implies first[i] == second[i] by {
        assert((beginning + first)[beginning.len() + i] == first[i]);
        assert((beginning + second)[beginning.len() + i] == second[i]);
    }
    assert(first =~= second);
}

impl Digest {
    /// Hashes `input`.
    pub fn of(input: &Vec<u8>) -> (d: Digest)
        ensures
            d@ == blake2b_digest(input@),
            d@.len() == DIGEST_BYTES,
    {
        Digest { bytes: blake2b_bytes(input.as_slice()) }
    }

    /// Hashes the bytes of `left` followed by those of `right`.
    pub fn of_pair(left: &Digest, right: &Digest) -> (d: Digest)
        ensures
            d@ == pair_digest(left@, right@),
            d@.len() == DIGEST_BYTES,
    {
        let mut joined: Vec<u8> = Vec::new();
        append_bytes(&mut joined, &left.bytes);
        append_bytes(&mut joined, &right.bytes);
        Digest::of(&joined)
    }

    /// A copy of this digest.
    pub fn duplicate(&self) -> (d: Digest)
        ensures
            d@ == self@,
    {
        let mut bytes: Vec<u8> = Vec::new();
        append_bytes(&mut bytes, &self.bytes);
        Digest { bytes }
    }

    /// Whether the two digests hold the same bytes.
    pub fn same_as(&self, other: &Digest) -> (same: bool)
        ensures
            same == (self@ == other@),
    {
        if self.bytes.len() != other.bytes.len() {
            return false;
        }
        let mut i: usize = 0;
        while i < self.bytes.len()
            invariant
                i <= self.bytes.len(),
                self.bytes.len() == other.bytes.len(),
                forall|k: int| 0 <= k < i ==> self@[k] == other@[k],
            decreases self.bytes.len() - i,
        {
            if self.bytes[i] != other.bytes[i] {
                return false;
            }
            i = i + 1;
        }
        assert(self@ =~= other@);
        true
    }
}

/// Appends the bytes of `src` to `dst`.
pub fn append_bytes(dst: &mut Vec<u8>, src: &Vec<u8>)
    ensures
        final(dst)@ == old(dst)@ + src@,
{
    let ghost start = dst@;
    let mut i: usize = 0;
    while i < src.len()
        invariant
            i <= src.len(),
            dst@ == start + src@.take(i as int),
        decreases src.len() - i,
    {
        dst.push(src[i]);
        i = i + 1;
    }
}

} // verus!
