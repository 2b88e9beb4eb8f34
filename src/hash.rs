//! Fixed-width hashes and their exclusive-or aggregation.
use vstd::prelude::*;

verus! {

/// Number of bytes of a hash.
pub const HASH_SIZE_BYTES: usize = 32;

/// What the digest primitive returns on the given bytes.
pub uninterp spec fn digest_of(data: Seq<u8>) -> Seq<u8>;

/// Relies on blake3::hash: a 32-byte digest that depends on the input bytes alone.
#[verifier::external_body]
fn blake3_digest(data: &Vec<u8>) -> (r: [u8; 32])
    ensures
        r@ == digest_of(data@),
{
    *blake3::hash(data.as_slice()).as_bytes()
}

/// The all-zero hash, the neutral element of the aggregation.
pub open spec fn zero_bytes() -> Seq<u8> {
    Seq::new(HASH_SIZE_BYTES as nat, |i: int| 0u8)
}

/// Byte-wise exclusive-or of two hashes.
pub open spec fn xor_bytes(a: Seq<u8>, b: Seq<u8>) -> Seq<u8> {
    Seq::new(HASH_SIZE_BYTES as nat, |i: int| a[i] ^ b[i])
}

/// A fixed-width hash value.
#[derive(Clone, Copy, Debug, PartialEq, Eq)]
pub struct Hash {
    pub bytes: [u8; 32],
}

impl View for Hash {
    type V = Seq<u8>;

    open spec fn view(&self) -> Seq<u8> {
        self.bytes@
    }
}

impl Hash {
    /// Hash of the given bytes.
    pub fn compute_from(data: &Vec<u8>) -> (r: Hash)
        ensures
            r@ == digest_of(data@),
    {
        Hash { bytes: blake3_digest(data) }
    }

    /// The all-zero hash.
    pub fn zero() -> (r: Hash)
        ensures
            r@ == zero_bytes(),
    {
        let r = Hash { bytes: [0u8; 32] };
        assert(r@ =~= zero_bytes());
        r
    }

    /// Builds a hash from its bytes.
    pub fn from_bytes(bytes: &[u8; 32]) -> (r: Hash)
        ensures
            r@ == bytes@,
    {
        Hash { bytes: *bytes }
    }

    /// The bytes of the hash.
    pub fn to_bytes(&self) -> (r: [u8; 32])
        ensures
            r@ == self@,
    {
        self.bytes
    }

    /// Exclusive-or of two hashes.
    pub fn xor(&self, other: &Hash) -> (r: Hash)
        ensures
            r@ == xor_bytes(self@, other@),
    {
        let mut bytes = [0u8; 32];
        let mut i: usize = 0;
        while i < HASH_SIZE_BYTES
            invariant
                0 <= i <= HASH_SIZE_BYTES,
                forall|j: int| 0 <= j < i ==> bytes@[j] == self@[j] ^ other@[j],
            decreases HASH_SIZE_BYTES - i,
        {
            bytes[i] = self.bytes[i] ^ other.bytes[i];
            i = i + 1;
        }
        let r = Hash { bytes };
        assert(r@ =~= xor_bytes(self@, other@));
        r
    }

    /// Appends the bytes of the hash to `buffer`.
    pub fn write_to(&self, buffer: &mut Vec<u8>)
        ensures
            final(buffer)@ == old(buffer)@ + self@,
    {
        let mut i: usize = 0;
        while i < HASH_SIZE_BYTES
            invariant
                0 <= i <= HASH_SIZE_BYTES,
                buffer@ == old(buffer)@ + self@.subrange(0, i as int),
            decreases HASH_SIZE_BYTES - i,
        {
            buffer.push(self.bytes[i]);
            i = i + 1;
            assert(buffer@ =~= old(buffer)@ + self@.subrange(0, i as int));
        }
        assert(self@.subrange(0, 32) =~= self@);
    }
}

/// Exclusive-or is commutative.
pub proof fn lemma_xor_commutative(a: Seq<u8>, b: Seq<u8>)
    ensures
        xor_bytes(a, b) == xor_bytes(b, a),
{
    assert forall|i: int| 0 <= i < HASH_SIZE_BYTES implies #[trigger] xor_bytes(a, b)[i]
        == xor_bytes(b, a)[i] by {
        let x = a[i];
        let y = b[i];
        assert(x ^ y == y ^ x) by (bit_vector);
    }
    assert(xor_bytes(a, b) =~= xor_bytes(b, a));
}

/// Exclusive-or is associative.
pub proof fn lemma_xor_associative(a: Seq<u8>, b: Seq<u8>, c: Seq<u8>)
    ensures
        xor_bytes(xor_bytes(a, b), c) == xor_bytes(a, xor_bytes(b, c)),
{
    assert forall|i: int| 0 <= i < HASH_SIZE_BYTES implies #[trigger] xor_bytes(
        xor_bytes(a, b),
        c,
    )[i] == xor_bytes(a, xor_bytes(b, c))[i] by {
        let x = a[i];
        let y = b[i];
        let z = c[i];
        assert((x ^ y) ^ z == x ^ (y ^ z)) by (bit_vector);
    }
    assert(xor_bytes(xor_bytes(a, b), c) =~= xor_bytes(a, xor_bytes(b, c)));
}

/// Exclusive-or with itself cancels: `(a ^ b) ^ b == a` for a hash `a`.
pub proof fn lemma_xor_cancel(a: Seq<u8>, b: Seq<u8>)
    requires
        a.len() == HASH_SIZE_BYTES,
    ensures
        xor_bytes(xor_bytes(a, b), b) == a,
{
    assert forall|i: int| 0 <= i < HASH_SIZE_BYTES implies #[trigger] xor_bytes(
        xor_bytes(a, b),
        b,
    )[i] == a[i] by {
        let x = a[i];
        let y = b[i];
        assert((x ^ y) ^ y == x) by (bit_vector);
    }
    assert(xor_bytes(xor_bytes(a, b), b) =~= a);
}

} // verus!
