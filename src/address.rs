//! Addresses of staking accounts and their fixed-format encoding: a category
//! byte (`0` for a user account, `1` for a smart contract), a version byte
//! (always `0`) and the 32 bytes of the address's hash.
use vstd::prelude::*;
use crate::hash;

verus! {

/// Number of bytes of an encoded address.
pub const ADDRESS_SIZE_BYTES: usize = 34;

/// An account address.
#[derive(Clone, Copy, Debug, PartialEq, Eq)]
pub struct Address {
    /// whether the address is that of a smart contract (else of a user)
    pub is_sc: bool,
    /// hash identifying the account
    pub hash: hash::Hash,
}

impl View for Address {
    type V = (bool, Seq<u8>);

    open spec fn view(&self) -> (bool, Seq<u8>) {
        (self.is_sc, self.hash@)
    }
}

/// The encoding of an address.
pub open spec fn enc_address(a: (bool, Seq<u8>)) -> Seq<u8> {
    seq![if a.0 { 1u8 } else { 0u8 }, 0u8] + a.1
}

/// Decodes an address at the start of `s`.
pub open spec fn parse_address(s: Seq<u8>) -> Option<((bool, Seq<u8>), nat)> {
    if s.len() >= ADDRESS_SIZE_BYTES && s[0] <= 1 && s[1] == 0 {
        Some(((s[0] == 1, s.subrange(2, ADDRESS_SIZE_BYTES as int)), ADDRESS_SIZE_BYTES as nat))
    } else {
        None
    }
}

/// Decoding reads back what was encoded, whatever follows it.
pub proof fn lemma_address_round_trip(a: (bool, Seq<u8>), rest: Seq<u8>)
    requires
        a.1.len() == 32,
    ensures
        parse_address(enc_address(a) + rest) == Some((a, enc_address(a).len())),
        enc_address(a).len() == ADDRESS_SIZE_BYTES,
{
    let s = enc_address(a) + rest;
    assert(s.subrange(2, ADDRESS_SIZE_BYTES as int) =~= a.1);
}

impl Address {
    /// Whether two addresses are the same.
    pub fn same_as(&self, other: &Address) -> (r: bool)
        ensures
            r == (self@ == other@),
    {
        if self.is_sc != other.is_sc {
            return false;
        }
        let mut i: usize = 0;
        while i < 32
            invariant
                0 <= i <= 32,
                forall|j: int| 0 <= j < i ==> self.hash@[j] == other.hash@[j],
            decreases 32 - i,
        {
            if self.hash.bytes[i] != other.hash.bytes[i] {
                return false;
            }
            i = i + 1;
        }
        assert(self.hash@ =~= other.hash@);
        true
    }

    /// Appends the encoding of the address to `buffer`.
    pub fn write_to(&self, buffer: &mut Vec<u8>)
        ensures
            final(buffer)@ == old(buffer)@ + enc_address(self@),
    {
        buffer.push(if self.is_sc { 1u8 } else { 0u8 });
        buffer.push(0u8);
        self.hash.write_to(buffer);
        assert(buffer@ =~= old(buffer)@ + enc_address(self@));
    }

    /// Decodes an address at position `pos` of `s`.
    pub fn read_from(s: &[u8], pos: usize) -> (r: Option<Address>)
        requires
            pos <= s@.len(),
        ensures
            r matches Some(a) ==> parse_address(s@.subrange(pos as int, s@.len() as int)) == Some(
                (a@, ADDRESS_SIZE_BYTES as nat),
            ),
            r is None ==> parse_address(s@.subrange(pos as int, s@.len() as int)) is None,
    {
        let ghost t = s@.subrange(pos as int, s@.len() as int);
        if s.len() - pos < ADDRESS_SIZE_BYTES || s[pos] > 1 || s[pos + 1] != 0 {
            return None;
        }
        let n = s.len();
        let mut bytes = [0u8; 32];
        let mut i: usize = 0;
        while i < 32
            invariant
                0 <= i <= 32,
                n == s@.len(),
                pos + ADDRESS_SIZE_BYTES <= n,
                forall|j: int| 0 <= j < i ==> bytes@[j] == s@[pos + 2 + j],
            decreases 32 - i,
        {
            bytes[i] = s[pos + 2 + i];
            i = i + 1;
        }
        let a = Address { is_sc: s[pos] == 1, hash: hash::Hash::from_bytes(&bytes) };
        assert(a.hash@ =~= t.subrange(2, ADDRESS_SIZE_BYTES as int));
        Some(a)
    }
}

} // verus!
