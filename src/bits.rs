//! Sequences of bits, packed eight to a byte, least significant bit first,
//! with the unused bits of the last byte set to zero.
use vstd::prelude::*;
use crate::varint::{enc_varint, parse_varint, read_varint, write_varint, lemma_varint_round_trip, lemma_varint_len};

verus! {

/// Bit `i` of `bits`, or `false` past its end.
pub open spec fn bit_or_zero(bits: Seq<bool>, i: int) -> bool {
    0 <= i < bits.len() && bits[i]
}

/// Byte `j` of the packing of `bits`.
pub open spec fn packed_byte(bits: Seq<bool>, j: int) -> u8 {
    (if bit_or_zero(bits, 8 * j) { 1u8 } else { 0u8 }) | (if bit_or_zero(bits, 8 * j + 1) {
        2u8
    } else {
        0u8
    }) | (if bit_or_zero(bits, 8 * j + 2) { 4u8 } else { 0u8 }) | (if bit_or_zero(
        bits,
        8 * j + 3,
    ) {
        8u8
    } else {
        0u8
    }) | (if bit_or_zero(bits, 8 * j + 4) { 16u8 } else { 0u8 }) | (if bit_or_zero(
        bits,
        8 * j + 5,
    ) {
        32u8
    } else {
        0u8
    }) | (if bit_or_zero(bits, 8 * j + 6) { 64u8 } else { 0u8 }) | (if bit_or_zero(
        bits,
        8 * j + 7,
    ) {
        128u8
    } else {
        0u8
    })
}

/// Largest number of bits that a sequence may hold: what a bit vector can
/// address, rounded down to whole bytes.
pub open spec fn max_bits() -> nat {
    (usize::MAX / 64) as nat * 8
}

/// Number of bytes that hold `n` bits.
pub open spec fn packed_len(n: nat) -> nat {
    (n + 7) / 8
}

/// The packing of `bits` into bytes.
pub open spec fn pack(bits: Seq<bool>) -> Seq<u8> {
    Seq::new(packed_len(bits.len()), |j: int| packed_byte(bits, j))
}

/// Bit `i` of packed `bytes`.
pub open spec fn bit_at(bytes: Seq<u8>, i: int) -> bool {
    (bytes[i / 8] >> ((i % 8) as u8)) & 1u8 == 1u8
}

/// The first `n` bits of packed `bytes`.
pub open spec fn unpack(bytes: Seq<u8>, n: nat) -> Seq<bool> {
    Seq::new(n, |i: int| bit_at(bytes, i))
}

/// Relies on bitvec's `BitVec<u8, Lsb0>`: collecting bits fills each byte
/// from its least significant bit, `set_uninitialized(false)` clears the
/// unused bits and `into_vec` hands out the bytes. A bit vector panics past
/// `usize::MAX >> 3` bits.
#[verifier::external_body]
fn pack_bits(bits: &Vec<bool>) -> (r: Vec<u8>)
    requires
        bits@.len() <= max_bits(),
    ensures
        r@ == pack(bits@),
{
    let mut bv: bitvec::vec::BitVec<u8, bitvec::order::Lsb0> = bits.iter().copied().collect();
    bv.set_uninitialized(false);
    bv.into_vec()
}

/// Relies on bitvec's `BitSlice<u8, Lsb0>`: bit `i` of a byte slice is bit
/// `i % 8`, from the least significant, of byte `i / 8`; `from_slice` does
/// not panic on slices of at most `usize::MAX >> 6` bytes.
#[verifier::external_body]
fn unpack_bits(bytes: &[u8], n: usize) -> (r: Vec<bool>)
    requires
        n <= 8 * bytes@.len(),
        bytes@.len() <= usize::MAX / 64,
    ensures
        r@ == unpack(bytes@, n as nat),
{
    bitvec::slice::BitSlice::<u8, bitvec::order::Lsb0>::from_slice(bytes).iter().by_vals().take(
        n,
    ).collect()
}

/// The encoding of a bit sequence: its length, then its packed bytes.
pub open spec fn enc_bits(bits: Seq<bool>) -> Seq<u8> {
    enc_varint(bits.len() as u64) + pack(bits)
}

/// Decodes a bit sequence at the start of `s`; its length must be at most
/// `max_bits()`.
pub open spec fn parse_bits(s: Seq<u8>) -> Option<(Seq<bool>, nat)> {
    match parse_varint(s) {
        Some((n, k)) => {
            if n <= max_bits() && k + packed_len(n as nat) <= s.len() {
                Some(
                    (
                        unpack(s.subrange(k as int, (k + packed_len(n as nat)) as int), n as nat),
                        k + packed_len(n as nat),
                    ),
                )
            } else {
                None
            }
        },
        None => None,
    }
}

proof fn lemma_byte_bits(b0: bool, b1: bool, b2: bool, b3: bool, b4: bool, b5: bool, b6: bool, b7: bool)
    ensures
        ({
            let x = (if b0 { 1u8 } else { 0u8 }) | (if b1 { 2u8 } else { 0u8 }) | (if b2 {
                4u8
            } else {
                0u8
            }) | (if b3 { 8u8 } else { 0u8 }) | (if b4 { 16u8 } else { 0u8 }) | (if b5 {
                32u8
            } else {
                0u8
            }) | (if b6 { 64u8 } else { 0u8 }) | (if b7 { 128u8 } else { 0u8 });
            &&& ((x >> 0u8) & 1u8 == 1u8) == b0
            &&& ((x >> 1u8) & 1u8 == 1u8) == b1
            &&& ((x >> 2u8) & 1u8 == 1u8) == b2
            &&& ((x >> 3u8) & 1u8 == 1u8) == b3
            &&& ((x >> 4u8) & 1u8 == 1u8) == b4
            &&& ((x >> 5u8) & 1u8 == 1u8) == b5
            &&& ((x >> 6u8) & 1u8 == 1u8) == b6
            &&& ((x >> 7u8) & 1u8 == 1u8) == b7
        }),
{
    assert({
            let x = (if b0 { 1u8 } else { 0u8 }) | (if b1 { 2u8 } else { 0u8 }) | (if b2 {
                4u8
            } else {
                0u8
            }) | (if b3 { 8u8 } else { 0u8 }) | (if b4 { 16u8 } else { 0u8 }) | (if b5 {
                32u8
            } else {
                0u8
            }) | (if b6 { 64u8 } else { 0u8 }) | (if b7 { 128u8 } else { 0u8 });
            &&& ((x >> 0u8) & 1u8 == 1u8) == b0
            &&& ((x >> 1u8) & 1u8 == 1u8) == b1
            &&& ((x >> 2u8) & 1u8 == 1u8) == b2
            &&& ((x >> 3u8) & 1u8 == 1u8) == b3
            &&& ((x >> 4u8) & 1u8 == 1u8) == b4
            &&& ((x >> 5u8) & 1u8 == 1u8) == b5
            &&& ((x >> 6u8) & 1u8 == 1u8) == b6
            &&& ((x >> 7u8) & 1u8 == 1u8) == b7
        }) by (bit_vector);
}

/// Unpacking reads back the packed bits.
pub proof fn lemma_pack_round_trip(bits: Seq<bool>)
    ensures
        unpack(pack(bits), bits.len()) == bits,
{
    let p = pack(bits);
    assert forall|i: int| 0 <= i < bits.len() implies #[trigger] bit_at(p, i) == bits[i] by {
        let j = i / 8;
        let k = i % 8;
        lemma_byte_bits(
            bit_or_zero(bits, 8 * j),
            bit_or_zero(bits, 8 * j + 1),
            bit_or_zero(bits, 8 * j + 2),
            bit_or_zero(bits, 8 * j + 3),
            bit_or_zero(bits, 8 * j + 4),
            bit_or_zero(bits, 8 * j + 5),
            bit_or_zero(bits, 8 * j + 6),
            bit_or_zero(bits, 8 * j + 7),
        );
        assert(p[j] == packed_byte(bits, j));
        assert(k == 0 || k == 1 || k == 2 || k == 3 || k == 4 || k == 5 || k == 6 || k == 7);
    }
    assert(unpack(p, bits.len()) =~= bits);
}

/// Decoding reads back what was encoded, whatever follows it.
pub proof fn lemma_bits_round_trip(bits: Seq<bool>, rest: Seq<u8>)
    requires
        bits.len() <= max_bits(),
    ensures
        parse_bits(enc_bits(bits) + rest) == Some((bits, enc_bits(bits).len())),
{
    let v = enc_varint(bits.len() as u64);
    let s = enc_bits(bits) + rest;
    lemma_varint_round_trip(bits.len() as u64, pack(bits) + rest);
    assert(s =~= v + (pack(bits) + rest));
    assert(s.subrange(v.len() as int, (v.len() + packed_len(bits.len())) as int) =~= pack(bits));
    lemma_pack_round_trip(bits);
}

/// Appends the encoding of `bits` to `buffer`.
pub fn write_bits(bits: &Vec<bool>, buffer: &mut Vec<u8>)
    requires
        bits@.len() <= max_bits(),
    ensures
        final(buffer)@ == old(buffer)@ + enc_bits(bits@),
{
    write_varint(bits.len() as u64, buffer);
    let mut packed = pack_bits(bits);
    buffer.append(&mut packed);
    assert(buffer@ =~= old(buffer)@ + enc_bits(bits@));
}

/// Decodes a bit sequence at position `pos` of `s`: the bits and the number
/// of bytes read.
pub fn read_bits(s: &[u8], pos: usize) -> (r: Option<(Vec<bool>, usize)>)
    requires
        pos <= s@.len(),
    ensures
        r matches Some((b, n)) ==> parse_bits(s@.subrange(pos as int, s@.len() as int)) == Some(
            (b@, n as nat),
        ),
        r is None ==> parse_bits(s@.subrange(pos as int, s@.len() as int)) is None,
{
    let ghost t = s@.subrange(pos as int, s@.len() as int);
    match read_varint(s, pos) {
        None => None,
        Some((n, k)) => {
            proof {
                lemma_varint_len(t);
            }
            let nbytes: u64 = n / 8 + if n % 8 == 0 { 0 } else { 1 };
            assert(nbytes == packed_len(n as nat));
            let limit: usize = usize::MAX / 64 * 8;
            if n > limit as u64 || nbytes > (s.len() - pos - k) as u64 {
                return None;
            }
            let start = pos + k;
            let end = start + nbytes as usize;
            let bytes = slice_range(s, start, end);
            assert(bytes@ =~= t.subrange(k as int, (k + packed_len(n as nat)) as int));
            let bits = unpack_bits(bytes.as_slice(), n as usize);
            Some((bits, k + nbytes as usize))
        },
    }
}

/// The bytes `start .. end` of `s`.
pub fn slice_range(s: &[u8], start: usize, end: usize) -> (r: Vec<u8>)
    requires
        start <= end <= s@.len(),
    ensures
        r@ == s@.subrange(start as int, end as int),
{
    let mut r: Vec<u8> = Vec::new();
    let mut i = start;
    while i < end
        invariant
            start <= i <= end <= s@.len(),
            r@ == s@.subrange(start as int, i as int),
        decreases end - i,
    {
        r.push(s[i]);
        i = i + 1;
        assert(r@ =~= s@.subrange(start as int, i as int));
    }
    r
}

} // verus!
