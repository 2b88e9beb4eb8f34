//! Canonical variable-length encoding of unsigned 64-bit integers: seven
//! bits per byte, least significant group first, the high bit marking that
//! more bytes follow.
use vstd::prelude::*;

verus! {

/// The encoding of `x`.
pub open spec fn enc_varint(x: u64) -> Seq<u8>
    decreases x,
{
    if x < 128 {
        seq![x as u8]
    } else {
        seq![(x % 128 + 128) as u8] + enc_varint(x / 128)
    }
}

/// Decodes an integer at the start of `s`: its value and the number of bytes
/// read. Fails on truncated input, on a non-canonical encoding (a last byte
/// of zero after other bytes) and on a value over `u64::MAX`.
pub open spec fn parse_varint(s: Seq<u8>) -> Option<(u64, nat)>
    decreases s.len(),
{
    if s.len() == 0 {
        None
    } else if s[0] < 128 {
        Some((s[0] as u64, 1))
    } else {
        match parse_varint(s.drop_first()) {
            Some((v, n)) => {
                if v == 0 || (s[0] - 128) + 128 * v > u64::MAX {
                    None
                } else {
                    Some((((s[0] - 128) + 128 * v) as u64, n + 1))
                }
            },
            None => None,
        }
    }
}

/// Decoding reads back what was encoded, whatever follows it.
pub proof fn lemma_varint_round_trip(x: u64, rest: Seq<u8>)
    ensures
        parse_varint(enc_varint(x) + rest) == Some((x, enc_varint(x).len())),
    decreases x,
{
    let s = enc_varint(x) + rest;
    if x >= 128 {
        lemma_varint_round_trip(x / 128, rest);
        assert(s.drop_first() =~= enc_varint(x / 128) + rest);
    }
}

/// A successful decoding reads bytes that lie in `s`.
pub proof fn lemma_varint_len(s: Seq<u8>)
    ensures
        parse_varint(s) matches Some((v, n)) ==> 1 <= n <= s.len(),
    decreases s.len(),
{
    if s.len() > 0 && s[0] >= 128 {
        lemma_varint_len(s.drop_first());
    }
}

/// Appends the encoding of `x` to `buffer`.
pub fn write_varint(x: u64, buffer: &mut Vec<u8>)
    ensures
        final(buffer)@ == old(buffer)@ + enc_varint(x),
    decreases x,
{
    if x < 128 {
        buffer.push(x as u8);
        assert(buffer@ =~= old(buffer)@ + enc_varint(x));
    } else {
        buffer.push((x % 128 + 128) as u8);
        write_varint(x / 128, buffer);
        assert(buffer@ =~= old(buffer)@ + enc_varint(x));
    }
}

/// Decodes an integer at position `pos` of `s`: its value and the number of
/// bytes read, or `None` where the bytes there are no canonical encoding.
pub fn read_varint(s: &[u8], pos: usize) -> (r: Option<(u64, usize)>)
    requires
        pos <= s@.len(),
    ensures
        r matches Some((v, n)) ==> parse_varint(s@.subrange(pos as int, s@.len() as int)) == Some(
            (v, n as nat),
        ),
        r is None ==> parse_varint(s@.subrange(pos as int, s@.len() as int)) is None,
    decreases s@.len() - pos,
{
    let ghost t = s@.subrange(pos as int, s@.len() as int);
    if pos >= s.len() {
        return None;
    }
    let b = s[pos];
    assert(t[0] == b);
    if b < 128 {
        return Some((b as u64, 1));
    }
    assert(t.drop_first() =~= s@.subrange(pos + 1, s@.len() as int));
    match read_varint(s, pos + 1) {
        None => None,
        Some((v, n)) => {
            proof {
                lemma_varint_len(t.drop_first());
            }
            let low = (b - 128) as u64;
            if v == 0 || v > (u64::MAX - low) / 128 {
                None
            } else {
                Some((low + 128 * v, n + 1))
            }
        },
    }
}

} // verus!
