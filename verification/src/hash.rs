//! The hash value type and the external hash combiner.

use vstd::prelude::*;

verus! {

/// A fixed-size opaque digest, compared only for equality.
#[derive(Clone, Copy, Debug)]
pub struct HashValue {
    pub bytes: [u8; 32],
}

impl View for HashValue {
    type V = Seq<u8>;

    open spec fn view(&self) -> Seq<u8> {
        self.bytes@
    }
}

impl HashValue {
    pub fn new(bytes: [u8; 32]) -> (r: HashValue)
        ensures
            r@ == bytes@,
    {
        HashValue { bytes }
    }

    /// The canonical zero hash used to pre-fill unfilled slots.
    pub fn zero() -> (r: HashValue)
        ensures
            r@ == zero_hash(),
    {
        let bytes = [0u8; 32];
        proof {
            assert(bytes@ =~= zero_hash());
        }
        HashValue { bytes }
    }

    /// Bit-for-bit equality of two hash values.
    pub fn equals(&self, other: &HashValue) -> (r: bool)
        ensures
            r <==> self@ == other@,
    {
        let mut i: usize = 0;
        while i < 32
            invariant
                i <= 32,
                forall|j: int| 0 <= j < i ==> self.bytes@[j] == other.bytes@[j],
            decreases 32 - i,
        {
            if self.bytes[i] != other.bytes[i] {
                return false;
            }
            i = i + 1;
        }
        proof {
            assert(self.bytes@ =~= other.bytes@);
        }
        true
    }
}

/// The all-zero digest.
pub open spec fn zero_hash() -> Seq<u8> {
    Seq::new(32, |i: int| 0u8)
}

/// What the external combiner returns for a pair of child hashes: a
/// deterministic function of the two children alone.
pub uninterp spec fn combine_of(left: Seq<u8>, right: Seq<u8>) -> Seq<u8>;

/// Relies on blake3::hazmat::merge_subtrees_non_root: the chaining value of a
/// parent node is a deterministic, domain-separated function of its two
/// children's chaining values.
#[verifier::external_body]
pub(crate) fn get_parent(left: &HashValue, right: &HashValue) -> (r: HashValue)
    ensures
        r@ == combine_of(left@, right@),
{
    HashValue {
        bytes: blake3::hazmat::merge_subtrees_non_root(
            &left.bytes,
            &right.bytes,
            blake3::hazmat::Mode::Hash,
        ),
    }
}

} // verus!
