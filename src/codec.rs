//! The binary wire format of cycle states and of cycle histories.
//!
//! Every length-prefixed collection is decoded against a maximum count that
//! the caller gives: a larger declared count is refused before any element
//! is read.
use vstd::prelude::*;
use std::collections::VecDeque;
use crate::address::{Address, ADDRESS_SIZE_BYTES, enc_address, parse_address, lemma_address_round_trip};
use crate::bits::{enc_bits, max_bits, parse_bits, read_bits, write_bits, lemma_bits_round_trip};
use crate::cycle_info::{AddressView, CycleInfo, CycleInfoView, entries_view, unique_keys};
use crate::entries::{
    from_entries, from_sorted_entries, insert_entry, insert_sorted_entry, sorted_keys,
    lemma_from_entries_unique, lemma_from_sorted_entries_id, lemma_from_sorted_entries_sorted,
    lemma_from_unique_entries,
};
use crate::hash;
use crate::stats::ProductionStats;
use crate::varint::{enc_varint, parse_varint, read_varint, write_varint, lemma_varint_round_trip, lemma_varint_len};

verus! {



/// The encoding of roll count entries, one after the other.
pub open spec fn enc_roll_entries(es: Seq<(AddressView, u64)>) -> Seq<u8>
    decreases es.len(),
{
    if es.len() == 0 {
        Seq::empty()
    } else {
        enc_roll_entries(es.drop_last()) + enc_address(es.last().0) + enc_varint(es.last().1)
    }
}

/// The encoding of production statistics entries, one after the other.
pub open spec fn enc_stats_entries(es: Seq<(AddressView, ProductionStats)>) -> Seq<u8>
    decreases es.len(),
{
    if es.len() == 0 {
        Seq::empty()
    } else {
        enc_stats_entries(es.drop_last()) + enc_address(es.last().0) + enc_varint(
            es.last().1.block_success_count,
        ) + enc_varint(es.last().1.block_failure_count)
    }
}

/// Decodes `n` roll count entries at the start of `s`.
pub open spec fn parse_roll_entries(s: Seq<u8>, n: nat) -> Option<(Seq<(AddressView, u64)>, nat)>
    decreases n,
{
    if n == 0 {
        Some((Seq::empty(), 0))
    } else {
        match parse_roll_entries(s, (n - 1) as nat) {
            Some((es, k)) => match parse_address(s.subrange(k as int, s.len() as int)) {
                Some((a, ka)) => match parse_varint(s.subrange((k + ka) as int, s.len() as int)) {
                    Some((c, kc)) => Some((es.push((a, c)), k + ka + kc)),
                    None => None,
                },
                None => None,
            },
            None => None,
        }
    }
}

/// Decodes `n` production statistics entries at the start of `s`.
pub open spec fn parse_stats_entries(s: Seq<u8>, n: nat) -> Option<
    (Seq<(AddressView, ProductionStats)>, nat),
>
    decreases n,
{
    if n == 0 {
        Some((Seq::empty(), 0))
    } else {
        match parse_stats_entries(s, (n - 1) as nat) {
            Some((es, k)) => match parse_address(s.subrange(k as int, s.len() as int)) {
                Some((a, ka)) => match parse_varint(s.subrange((k + ka) as int, s.len() as int)) {
                    Some((sc, ks)) => match parse_varint(s.subrange((k + ka + ks) as int, s.len() as int)) {
                        Some((fc, kf)) => Some(
                            (
                                es.push(
                                    (
                                        a,
                                        ProductionStats {
                                            block_success_count: sc,
                                            block_failure_count: fc,
                                        },
                                    ),
                                ),
                                k + ka + ks + kf,
                            ),
                        ),
                        None => None,
                    },
                    None => None,
                },
                None => None,
            },
            None => None,
        }
    }
}

/// The encoding of a list of roll count entries: their count, then the entries.
pub open spec fn enc_rolls(es: Seq<(AddressView, u64)>) -> Seq<u8> {
    enc_varint(es.len() as u64) + enc_roll_entries(es)
}

/// The encoding of production statistics: their count, then the entries.
pub open spec fn enc_stats(es: Seq<(AddressView, ProductionStats)>) -> Seq<u8> {
    enc_varint(es.len() as u64) + enc_stats_entries(es)
}

/// Decodes a list of roll count entries of at most `max` entries at the
/// start of `s`.
pub open spec fn parse_rolls(s: Seq<u8>, max: u64) -> Option<(Seq<(AddressView, u64)>, nat)> {
    match parse_varint(s) {
        Some((n, k)) => {
            if n > max {
                None
            } else {
                match parse_roll_entries(s.subrange(k as int, s.len() as int), n as nat) {
                    Some((es, ke)) => Some((es, k + ke)),
                    None => None,
                }
            }
        },
        None => None,
    }
}

/// Decodes production statistics of at most `max` entries at the start of `s`.
pub open spec fn parse_stats(s: Seq<u8>, max: u64) -> Option<
    (Seq<(AddressView, ProductionStats)>, nat),
> {
    match parse_varint(s) {
        Some((n, k)) => {
            if n > max {
                None
            } else {
                match parse_stats_entries(s.subrange(k as int, s.len() as int), n as nat) {
                    Some((es, ke)) => Some((es, k + ke)),
                    None => None,
                }
            }
        },
        None => None,
    }
}

proof fn lemma_roll_entries_len(s: Seq<u8>, n: nat)
    ensures
        parse_roll_entries(s, n) matches Some((es, k)) ==> k <= s.len() && es.len() == n,
    decreases n,
{
    if n > 0 {
        lemma_roll_entries_len(s, (n - 1) as nat);
        if let Some((es, k)) = parse_roll_entries(s, (n - 1) as nat) {
            if let Some((a, ka)) = parse_address(s.subrange(k as int, s.len() as int)) {
                lemma_varint_len(s.subrange((k + ka) as int, s.len() as int));
            }
        }
    }
}

proof fn lemma_stats_entries_len(s: Seq<u8>, n: nat)
    ensures
        parse_stats_entries(s, n) matches Some((es, k)) ==> k <= s.len() && es.len() == n,
    decreases n,
{
    if n > 0 {
        lemma_stats_entries_len(s, (n - 1) as nat);
        if let Some((es, k)) = parse_stats_entries(s, (n - 1) as nat) {
            if let Some((a, ka)) = parse_address(s.subrange(k as int, s.len() as int)) {
                lemma_varint_len(s.subrange((k + ka) as int, s.len() as int));
                if let Some((sc, ks)) = parse_varint(s.subrange((k + ka) as int, s.len() as int)) {
                    lemma_varint_len(s.subrange((k + ka + ks) as int, s.len() as int));
                }
            }
        }
    }
}

proof fn lemma_roll_entries_fail(s: Seq<u8>, i: nat, n: nat)
    requires
        i <= n,
        parse_roll_entries(s, i) is None,
    ensures
        parse_roll_entries(s, n) is None,
    decreases n - i,
{
    if i < n {
        lemma_roll_entries_fail(s, i + 1, n);
    }
}

proof fn lemma_stats_entries_fail(s: Seq<u8>, i: nat, n: nat)
    requires
        i <= n,
        parse_stats_entries(s, i) is None,
    ensures
        parse_stats_entries(s, n) is None,
    decreases n - i,
{
    if i < n {
        lemma_stats_entries_fail(s, i + 1, n);
    }
}

/// Decoding roll count entries reads back what was encoded, whatever follows.
#[verifier::rlimit(100)]
#[verifier::spinoff_prover]
pub proof fn lemma_roll_entries_round_trip(es: Seq<(AddressView, u64)>, rest: Seq<u8>)
    requires
        forall|i: int| 0 <= i < es.len() ==> (#[trigger] es[i]).0.1.len() == 32,
    ensures
        parse_roll_entries(enc_roll_entries(es) + rest, es.len()) == Some(
            (es, enc_roll_entries(es).len()),
        ),
    decreases es.len(),
{
    if es.len() > 0 {
        let d = es.drop_last();
        let e = es.last();
        let s = enc_roll_entries(es) + rest;
        let tail = enc_address(e.0) + enc_varint(e.1) + rest;
        assert(s =~= enc_roll_entries(d) + tail);
        lemma_roll_entries_round_trip(d, tail);
        assert(d =~= es.drop_last());
        let k = enc_roll_entries(d).len();
        assert(s.subrange(k as int, s.len() as int) =~= enc_address(e.0) + (enc_varint(e.1)
            + rest));
        lemma_address_round_trip(e.0, enc_varint(e.1) + rest);
        assert(s.subrange((k + ADDRESS_SIZE_BYTES) as int, s.len() as int) =~= enc_varint(e.1) + rest);
        lemma_varint_round_trip(e.1, rest);
        assert(d.push(e) =~= es);
    }
}

/// Decoding production statistics entries reads back what was encoded,
/// whatever follows.
#[verifier::rlimit(100)]
#[verifier::spinoff_prover]
pub proof fn lemma_stats_entries_round_trip(es: Seq<(AddressView, ProductionStats)>, rest: Seq<u8>)
    requires
        forall|i: int| 0 <= i < es.len() ==> (#[trigger] es[i]).0.1.len() == 32,
    ensures
        parse_stats_entries(enc_stats_entries(es) + rest, es.len()) == Some(
            (es, enc_stats_entries(es).len()),
        ),
    decreases es.len(),
{
    if es.len() > 0 {
        let d = es.drop_last();
        let e = es.last();
        let s = enc_stats_entries(es) + rest;
        let vs = enc_varint(e.1.block_success_count);
        let vf = enc_varint(e.1.block_failure_count);
        let tail = enc_address(e.0) + vs + vf + rest;
        assert(s =~= enc_stats_entries(d) + tail);
        lemma_stats_entries_round_trip(d, tail);
        let k = enc_stats_entries(d).len();
        assert(s.subrange(k as int, s.len() as int) =~= enc_address(e.0) + (vs + vf + rest));
        lemma_address_round_trip(e.0, vs + vf + rest);
        assert(s.subrange((k + ADDRESS_SIZE_BYTES) as int, s.len() as int) =~= vs + (vf + rest));
        lemma_varint_round_trip(e.1.block_success_count, vf + rest);
        assert(s.subrange((k + ADDRESS_SIZE_BYTES + vs.len()) as int, s.len() as int) =~= vf + rest);
        lemma_varint_round_trip(e.1.block_failure_count, rest);
        assert(d.push(e) =~= es);
    }
}

/// Decoding a list of roll count entries within the bound reads back what
/// was encoded, whatever follows.
pub proof fn lemma_rolls_round_trip(es: Seq<(AddressView, u64)>, rest: Seq<u8>, max: u64)
    requires
        es.len() <= max,
        forall|i: int| 0 <= i < es.len() ==> (#[trigger] es[i]).0.1.len() == 32,
    ensures
        parse_rolls(enc_rolls(es) + rest, max) == Some((es, enc_rolls(es).len())),
{
    let s = enc_rolls(es) + rest;
    lemma_varint_round_trip(es.len() as u64, enc_roll_entries(es) + rest);
    assert(s =~= enc_varint(es.len() as u64) + (enc_roll_entries(es) + rest));
    let k = enc_varint(es.len() as u64).len();
    assert(s.subrange(k as int, s.len() as int) =~= enc_roll_entries(es) + rest);
    lemma_roll_entries_round_trip(es, rest);
}

/// Decoding production statistics within the bound reads back what was
/// encoded, whatever follows.
pub proof fn lemma_stats_round_trip(es: Seq<(AddressView, ProductionStats)>, rest: Seq<u8>, max: u64)
    requires
        es.len() <= max,
        forall|i: int| 0 <= i < es.len() ==> (#[trigger] es[i]).0.1.len() == 32,
    ensures
        parse_stats(enc_stats(es) + rest, max) == Some((es, enc_stats(es).len())),
{
    let s = enc_stats(es) + rest;
    lemma_varint_round_trip(es.len() as u64, enc_stats_entries(es) + rest);
    assert(s =~= enc_varint(es.len() as u64) + (enc_stats_entries(es) + rest));
    let k = enc_varint(es.len() as u64).len();
    assert(s.subrange(k as int, s.len() as int) =~= enc_stats_entries(es) + rest);
    lemma_stats_entries_round_trip(es, rest);
}

/// Which part of the input could not be decoded.
#[derive(Clone, Copy, Debug, PartialEq, Eq)]
pub enum DecodeError {
    /// the cycle number
    Cycle,
    /// the completeness flag, which must be the byte `0` or `1`
    Complete,
    /// the roll counts, or their count over the maximum
    RollCounts,
    /// the random seed bits
    RngSeed,
    /// the production statistics, or their count over the maximum
    ProductionStats,
    /// the final state hash snapshot, whose presence byte must be `0` or `1`
    FinalStateHashSnapshot,
    /// the number of cycles of a history, or its count over the maximum
    CycleHistoryLength,
}

fn write_roll_entries(entries: &Vec<(Address, u64)>, buffer: &mut Vec<u8>)
    ensures
        final(buffer)@ == old(buffer)@ + enc_roll_entries(entries_view(entries@)),
{
    let ghost ev = entries_view(entries@);
    let mut i: usize = 0;
    while i < entries.len()
        invariant
            0 <= i <= entries@.len(),
            ev == entries_view(entries@),
            buffer@ == old(buffer)@ + enc_roll_entries(ev.subrange(0, i as int)),
        decreases entries@.len() - i,
    {
        entries[i].0.write_to(buffer);
        write_varint(entries[i].1, buffer);
        proof {
            assert(ev.subrange(0, i + 1).drop_last() =~= ev.subrange(0, i as int));
            assert(buffer@ =~= old(buffer)@ + enc_roll_entries(ev.subrange(0, i + 1)));
        }
        i = i + 1;
    }
    assert(ev.subrange(0, i as int) =~= ev);
}

fn write_stats_entries(entries: &Vec<(Address, ProductionStats)>, buffer: &mut Vec<u8>)
    ensures
        final(buffer)@ == old(buffer)@ + enc_stats_entries(entries_view(entries@)),
{
    let ghost ev = entries_view(entries@);
    let mut i: usize = 0;
    while i < entries.len()
        invariant
            0 <= i <= entries@.len(),
            ev == entries_view(entries@),
            buffer@ == old(buffer)@ + enc_stats_entries(ev.subrange(0, i as int)),
        decreases entries@.len() - i,
    {
        entries[i].0.write_to(buffer);
        write_varint(entries[i].1.block_success_count, buffer);
        write_varint(entries[i].1.block_failure_count, buffer);
        proof {
            assert(ev.subrange(0, i + 1).drop_last() =~= ev.subrange(0, i as int));
            assert(buffer@ =~= old(buffer)@ + enc_stats_entries(ev.subrange(0, i + 1)));
        }
        i = i + 1;
    }
    assert(ev.subrange(0, i as int) =~= ev);
}

fn read_roll_entries(s: &[u8], pos: usize, n: u64) -> (r: Option<(Vec<(Address, u64)>, usize)>)
    requires
        pos <= s@.len(),
    ensures
        r matches Some((v, k)) ==> parse_roll_entries(s@.subrange(pos as int, s@.len() as int), n as nat)
            == Some((entries_view(v@), k as nat)),
        r is None ==> parse_roll_entries(s@.subrange(pos as int, s@.len() as int), n as nat) is None,
{
    let ghost t = s@.subrange(pos as int, s@.len() as int);
    let mut out: Vec<(Address, u64)> = Vec::new();
    let len = s.len();
    let mut p = pos;
    let mut i: u64 = 0;
    while i < n
        invariant
            0 <= i <= n,
            len == s@.len(),
            pos <= p <= s@.len(),
            t == s@.subrange(pos as int, s@.len() as int),
            parse_roll_entries(t, i as nat) == Some((entries_view(out@), (p - pos) as nat)),
        decreases n - i,
    {
        assert(s@.subrange(p as int, s@.len() as int) =~= t.subrange(p - pos, t.len() as int));
        let a = match Address::read_from(s, p) {
            Some(a) => a,
            None => {
                proof {
                    lemma_roll_entries_fail(t, (i + 1) as nat, n as nat);
                }
                return None;
            },
        };
        let q = p + ADDRESS_SIZE_BYTES;
        assert(s@.subrange(q as int, s@.len() as int) =~= t.subrange(q - pos, t.len() as int));
        let (c, kc) = match read_varint(s, q) {
            Some(x) => x,
            None => {
                proof {
                    lemma_roll_entries_fail(t, (i + 1) as nat, n as nat);
                }
                return None;
            },
        };
        proof {
            lemma_varint_len(s@.subrange(q as int, s@.len() as int));
        }
        let ghost prev = out@;
        out.push((a, c));
        p = q + kc;
        i = i + 1;
        assert(entries_view(out@) =~= entries_view(prev).push((a@, c)));
    }
    Some((out, p - pos))
}

fn read_stats_entries(s: &[u8], pos: usize, n: u64) -> (r: Option<(Vec<(Address, ProductionStats)>, usize)>)
    requires
        pos <= s@.len(),
    ensures
        r matches Some((v, k)) ==> parse_stats_entries(s@.subrange(pos as int, s@.len() as int), n as nat)
            == Some((entries_view(v@), k as nat)),
        r is None ==> parse_stats_entries(s@.subrange(pos as int, s@.len() as int), n as nat) is None,
{
    let ghost t = s@.subrange(pos as int, s@.len() as int);
    let mut out: Vec<(Address, ProductionStats)> = Vec::new();
    let len = s.len();
    let mut p = pos;
    let mut i: u64 = 0;
    while i < n
        invariant
            0 <= i <= n,
            len == s@.len(),
            pos <= p <= s@.len(),
            t == s@.subrange(pos as int, s@.len() as int),
            parse_stats_entries(t, i as nat) == Some((entries_view(out@), (p - pos) as nat)),
        decreases n - i,
    {
        assert(s@.subrange(p as int, s@.len() as int) =~= t.subrange(p - pos, t.len() as int));
        let a = match Address::read_from(s, p) {
            Some(a) => a,
            None => {
                proof {
                    lemma_stats_entries_fail(t, (i + 1) as nat, n as nat);
                }
                return None;
            },
        };
        let q = p + ADDRESS_SIZE_BYTES;
        assert(s@.subrange(q as int, s@.len() as int) =~= t.subrange(q - pos, t.len() as int));
        let (sc, ks) = match read_varint(s, q) {
            Some(x) => x,
            None => {
                proof {
                    lemma_stats_entries_fail(t, (i + 1) as nat, n as nat);
                }
                return None;
            },
        };
        proof {
            lemma_varint_len(s@.subrange(q as int, s@.len() as int));
        }
        let q2 = q + ks;
        assert(s@.subrange(q2 as int, s@.len() as int) =~= t.subrange(q2 - pos, t.len() as int));
        let (fc, kf) = match read_varint(s, q2) {
            Some(x) => x,
            None => {
                proof {
                    lemma_stats_entries_fail(t, (i + 1) as nat, n as nat);
                }
                return None;
            },
        };
        proof {
            lemma_varint_len(s@.subrange(q2 as int, s@.len() as int));
        }
        let stats = ProductionStats { block_success_count: sc, block_failure_count: fc };
        let ghost prev = out@;
        out.push((a, stats));
        p = q2 + kf;
        i = i + 1;
        assert(entries_view(out@) =~= entries_view(prev).push((a@, stats)));
    }
    Some((out, p - pos))
}

/// The encoding of an optional hash: a presence byte, then the hash if present.
pub open spec fn enc_opt_hash(o: Option<Seq<u8>>) -> Seq<u8> {
    match o {
        Some(h) => seq![1u8] + h,
        None => seq![0u8],
    }
}

/// Decodes an optional hash at the start of `s`.
pub open spec fn parse_opt_hash(s: Seq<u8>) -> Option<(Option<Seq<u8>>, nat)> {
    if s.len() >= 1 && s[0] == 0 {
        Some((None, 1))
    } else if s.len() >= 33 && s[0] == 1 {
        Some((Some(s.subrange(1, 33)), 33))
    } else {
        None
    }
}

/// The encoding of the data of a cycle.
pub open spec fn enc_cycle_info(v: CycleInfoView) -> Seq<u8> {
    enc_varint(v.cycle) + seq![if v.complete { 1u8 } else { 0u8 }] + enc_rolls(v.roll_counts)
        + enc_bits(v.rng_seed) + enc_stats(v.production_stats) + enc_opt_hash(
        v.final_state_hash_snapshot,
    )
}

/// Decodes, at the start of `s`, what follows the completeness flag in the
/// encoding of a cycle: the roll count entries, the seed bits, the production
/// statistics entries and the snapshot, with the number of bytes read.
#[verifier::opaque]
pub open spec fn parse_cycle_body(s: Seq<u8>, max_rolls: u64, max_stats: u64) -> Result<
    (Seq<(AddressView, u64)>, Seq<bool>, Seq<(AddressView, ProductionStats)>, Option<Seq<u8>>, nat),
    DecodeError,
> {
    match parse_rolls(s, max_rolls) {
        None => Err(DecodeError::RollCounts),
        Some((rolls, k2)) => {
            let s3 = s.subrange(k2 as int, s.len() as int);
            match parse_bits(s3) {
                None => Err(DecodeError::RngSeed),
                Some((seed, k3)) => {
                    let s4 = s.subrange((k2 + k3) as int, s.len() as int);
                    match parse_stats(s4, max_stats) {
                        None => Err(DecodeError::ProductionStats),
                        Some((stats, k4)) => {
                            let s5 = s.subrange((k2 + k3 + k4) as int, s.len() as int);
                            match parse_opt_hash(s5) {
                                None => Err(DecodeError::FinalStateHashSnapshot),
                                Some((snapshot, k5)) => Ok(
                                    (rolls, seed, stats, snapshot, k2 + k3 + k4 + k5),
                                ),
                            }
                        },
                    }
                },
            }
        },
    }
}

/// Decodes the data of a cycle at the start of `s`, with at most `max_rolls`
/// roll count entries and `max_stats` production statistics entries; a later
/// entry for an address overrides an earlier one, and the roll counts come out
/// sorted by address. On failure, names the first part that could not be
/// decoded.
#[verifier::opaque]
pub open spec fn parse_cycle_info(s: Seq<u8>, max_rolls: u64, max_stats: u64) -> Result<
    (CycleInfoView, nat),
    DecodeError,
> {
    match parse_varint(s) {
        None => Err(DecodeError::Cycle),
        Some((cycle, k1)) => {
            if s.len() <= k1 || s[k1 as int] > 1 {
                Err(DecodeError::Complete)
            } else {
                match parse_cycle_body(s.subrange((k1 + 1) as int, s.len() as int), max_rolls, max_stats) {
                    Err(e) => Err(e),
                    Ok((rolls, seed, stats, snapshot, kb)) => Ok(
                        (
                            CycleInfoView {
                                cycle,
                                complete: s[k1 as int] == 1,
                                roll_counts: from_sorted_entries(rolls),
                                rng_seed: seed,
                                production_stats: from_entries(stats),
                                final_state_hash_snapshot: snapshot,
                            },
                            k1 + 1 + kb,
                        ),
                    ),
                }
            }
        },
    }
}

fn write_opt_hash(o: &Option<hash::Hash>, buffer: &mut Vec<u8>)
    ensures
        final(buffer)@ == old(buffer)@ + enc_opt_hash(crate::cycle_info::opt_hash_view(*o)),
{
    match o {
        Some(h) => {
            buffer.push(1u8);
            h.write_to(buffer);
        },
        None => {
            buffer.push(0u8);
        },
    }
    assert(buffer@ =~= old(buffer)@ + enc_opt_hash(crate::cycle_info::opt_hash_view(*o)));
}

fn read_opt_hash(s: &[u8], pos: usize) -> (r: Option<(Option<hash::Hash>, usize)>)
    requires
        pos <= s@.len(),
    ensures
        r matches Some((o, k)) ==> parse_opt_hash(s@.subrange(pos as int, s@.len() as int)) == Some(
            (crate::cycle_info::opt_hash_view(o), k as nat),
        ),
        r is None ==> parse_opt_hash(s@.subrange(pos as int, s@.len() as int)) is None,
{
    let ghost t = s@.subrange(pos as int, s@.len() as int);
    let len = s.len();
    if pos >= len {
        return None;
    }
    if s[pos] == 0 {
        return Some((None, 1));
    }
    if s[pos] != 1 || len - pos < 33 {
        return None;
    }
    let mut bytes = [0u8; 32];
    let mut i: usize = 0;
    while i < 32
        invariant
            0 <= i <= 32,
            len == s@.len(),
            pos + 33 <= len,
            forall|j: int| 0 <= j < i ==> bytes@[j] == s@[pos + 1 + j],
        decreases 32 - i,
    {
        bytes[i] = s[pos + 1 + i];
        i = i + 1;
    }
    let h = hash::Hash::from_bytes(&bytes);
    assert(h@ =~= t.subrange(1, 33));
    Some((Some(h), 33))
}

fn entries_to_map<V: Copy>(l: &Vec<(Address, V)>) -> (r: Vec<(Address, V)>)
    ensures
        entries_view(r@) == from_entries(entries_view(l@)),
{
    let ghost lv = entries_view(l@);
    let mut out: Vec<(Address, V)> = Vec::new();
    let mut i: usize = 0;
    while i < l.len()
        invariant
            0 <= i <= l@.len(),
            lv == entries_view(l@),
            entries_view(out@) == from_entries(lv.subrange(0, i as int)),
        decreases l@.len() - i,
    {
        proof {
            lemma_from_entries_unique(lv.subrange(0, i as int));
            assert(lv.subrange(0, i + 1).drop_last() =~= lv.subrange(0, i as int));
        }
        insert_entry(&mut out, l[i].0, l[i].1);
        i = i + 1;
    }
    assert(lv.subrange(0, i as int) =~= lv);
    out
}

fn entries_to_sorted_map(l: &Vec<(Address, u64)>) -> (r: Vec<(Address, u64)>)
    ensures
        entries_view(r@) == from_sorted_entries(entries_view(l@)),
{
    let ghost lv = entries_view(l@);
    let mut out: Vec<(Address, u64)> = Vec::new();
    let mut i: usize = 0;
    while i < l.len()
        invariant
            0 <= i <= l@.len(),
            lv == entries_view(l@),
            entries_view(out@) == from_sorted_entries(lv.subrange(0, i as int)),
        decreases l@.len() - i,
    {
        proof {
            let pre = lv.subrange(0, i as int);
            assert forall|j: int| 0 <= j < pre.len() implies (#[trigger] pre[j]).0.1.len() == 32 by {
                assert(pre[j].0.1 == l@[j].0.hash.bytes@);
            }
            lemma_from_sorted_entries_sorted(pre);
            assert(lv.subrange(0, i + 1).drop_last() =~= pre);
        }
        insert_sorted_entry(&mut out, l[i].0, l[i].1);
        i = i + 1;
    }
    assert(lv.subrange(0, i as int) =~= lv);
    out
}

/// Serializer for the production statistics of a cycle.
pub struct ProductionStatsSerializer {}

impl Default for ProductionStatsSerializer {
    fn default() -> (r: ProductionStatsSerializer)
        ensures
            r == (ProductionStatsSerializer {}),
    {
        ProductionStatsSerializer::new()
    }
}

impl ProductionStatsSerializer {
    /// Creates a production statistics serializer.
    pub fn new() -> (r: ProductionStatsSerializer)
        ensures
            r == (ProductionStatsSerializer {}),
    {
        ProductionStatsSerializer {}
    }

    /// Appends the encoding of `value` to `buffer`.
    pub fn serialize(&self, value: &Vec<(Address, ProductionStats)>, buffer: &mut Vec<u8>)
        ensures
            final(buffer)@ == old(buffer)@ + enc_stats(entries_view(value@)),
    {
        write_varint(value.len() as u64, buffer);
        write_stats_entries(value, buffer);
        assert(buffer@ =~= old(buffer)@ + enc_stats(entries_view(value@)));
    }
}

/// Deserializer for the production statistics of a cycle.
pub struct ProductionStatsDeserializer {
    /// largest number of entries accepted
    pub max_production_stats_length: u64,
}

impl ProductionStatsDeserializer {
    /// Creates a deserializer that accepts at most
    /// `max_production_stats_length` entries.
    pub fn new(max_production_stats_length: u64) -> (r: ProductionStatsDeserializer)
        ensures
            r.max_production_stats_length == max_production_stats_length,
    {
        ProductionStatsDeserializer { max_production_stats_length }
    }

    fn read_at(&self, s: &[u8], pos: usize) -> (r: Option<(Vec<(Address, ProductionStats)>, usize)>)
        requires
            pos <= s@.len(),
        ensures
            r matches Some((v, k)) ==> parse_stats(
                s@.subrange(pos as int, s@.len() as int),
                self.max_production_stats_length,
            ) == Some((entries_view(v@), k as nat)),
            r is None ==> parse_stats(
                s@.subrange(pos as int, s@.len() as int),
                self.max_production_stats_length,
            ) is None,
    {
        let ghost t = s@.subrange(pos as int, s@.len() as int);
        let len = s.len();
        let (n, k) = match read_varint(s, pos) {
            Some(x) => x,
            None => return None,
        };
        if n > self.max_production_stats_length {
            return None;
        }
        proof {
            lemma_varint_len(t);
        }
        assert(s@.subrange(pos + k, s@.len() as int) =~= t.subrange(k as int, t.len() as int));
        match read_stats_entries(s, pos + k, n) {
            Some((v, ke)) => {
                proof {
                    lemma_stats_entries_len(t.subrange(k as int, t.len() as int), n as nat);
                }
                Some((v, k + ke))
            },
            None => None,
        }
    }

    /// Decodes production statistics at the start of `buffer`: the mapping
    /// they describe, one entry per address with the last listed entry of an
    /// address winning, and the number of bytes read.
    pub fn deserialize(&self, buffer: &[u8]) -> (r: Result<
        (Vec<(Address, ProductionStats)>, usize),
        DecodeError,
    >)
        ensures
            r matches Ok((v, k)) ==> unique_keys(entries_view(v@)) && (parse_stats(
                buffer@,
                self.max_production_stats_length,
            ) matches Some((es, n)) && n == k && entries_view(v@) == from_entries(es)),
            r is Err ==> parse_stats(buffer@, self.max_production_stats_length) is None && r
                == Err::<(Vec<(Address, ProductionStats)>, usize), DecodeError>(
                DecodeError::ProductionStats,
            ),
    {
        assert(buffer@.subrange(0, buffer@.len() as int) =~= buffer@);
        match self.read_at(buffer, 0) {
            Some((list, k)) => {
                let map = entries_to_map(&list);
                proof {
                    lemma_from_entries_unique(entries_view(list@));
                }
                Ok((map, k))
            },
            None => Err(DecodeError::ProductionStats),
        }
    }
}

/// Deserializer for the roll counts of a cycle.
pub struct RollsDeserializer {
    /// largest number of entries accepted
    pub max_rolls_length: u64,
}

impl RollsDeserializer {
    /// Creates a deserializer that accepts at most `max_rolls_length` entries.
    pub fn new(max_rolls_length: u64) -> (r: RollsDeserializer)
        ensures
            r.max_rolls_length == max_rolls_length,
    {
        RollsDeserializer { max_rolls_length }
    }

    fn read_at(&self, s: &[u8], pos: usize) -> (r: Option<(Vec<(Address, u64)>, usize)>)
        requires
            pos <= s@.len(),
        ensures
            r matches Some((v, k)) ==> parse_rolls(
                s@.subrange(pos as int, s@.len() as int),
                self.max_rolls_length,
            ) == Some((entries_view(v@), k as nat)),
            r is None ==> parse_rolls(
                s@.subrange(pos as int, s@.len() as int),
                self.max_rolls_length,
            ) is None,
    {
        let ghost t = s@.subrange(pos as int, s@.len() as int);
        let len = s.len();
        let (n, k) = match read_varint(s, pos) {
            Some(x) => x,
            None => return None,
        };
        if n > self.max_rolls_length {
            return None;
        }
        proof {
            lemma_varint_len(t);
        }
        assert(s@.subrange(pos + k, s@.len() as int) =~= t.subrange(k as int, t.len() as int));
        match read_roll_entries(s, pos + k, n) {
            Some((v, ke)) => {
                proof {
                    lemma_roll_entries_len(t.subrange(k as int, t.len() as int), n as nat);
                }
                Some((v, k + ke))
            },
            None => None,
        }
    }

    /// Decodes roll counts at the start of `buffer`: the entries, as listed,
    /// and the number of bytes read.
    pub fn deserialize(&self, buffer: &[u8]) -> (r: Result<(Vec<(Address, u64)>, usize), DecodeError>)
        ensures
            r matches Ok((v, k)) ==> parse_rolls(buffer@, self.max_rolls_length) == Some(
                (entries_view(v@), k as nat),
            ),
            r is Err ==> parse_rolls(buffer@, self.max_rolls_length) is None && r == Err::<
                (Vec<(Address, u64)>, usize),
                DecodeError,
            >(DecodeError::RollCounts),
    {
        assert(buffer@.subrange(0, buffer@.len() as int) =~= buffer@);
        match self.read_at(buffer, 0) {
            Some(x) => Ok(x),
            None => Err(DecodeError::RollCounts),
        }
    }
}

/// Serializer for cycle states.
pub struct CycleInfoSerializer {}

impl Default for CycleInfoSerializer {
    fn default() -> (r: CycleInfoSerializer)
        ensures
            r == (CycleInfoSerializer {}),
    {
        CycleInfoSerializer::new()
    }
}

impl CycleInfoSerializer {
    /// Creates a cycle state serializer.
    pub fn new() -> (r: CycleInfoSerializer)
        ensures
            r == (CycleInfoSerializer {}),
    {
        CycleInfoSerializer {}
    }

    /// Appends the encoding of `value` to `buffer`.
    pub fn serialize(&self, value: &CycleInfo, buffer: &mut Vec<u8>)
        requires
            value.rng_seed@.len() <= max_bits(),
        ensures
            final(buffer)@ == old(buffer)@ + enc_cycle_info(value@),
    {
        write_varint(value.cycle, buffer);
        buffer.push(if value.complete { 1u8 } else { 0u8 });
        write_varint(value.roll_counts.len() as u64, buffer);
        write_roll_entries(&value.roll_counts, buffer);
        write_bits(&value.rng_seed, buffer);
        ProductionStatsSerializer::new().serialize(&value.production_stats, buffer);
        write_opt_hash(&value.final_state_hash_snapshot, buffer);
        assert(buffer@ =~= old(buffer)@ + enc_cycle_info(value@));
    }
}

/// Deserializer for cycle states.
pub struct CycleInfoDeserializer {
    /// largest number of roll count entries accepted
    pub max_rolls_length: u64,
    /// largest number of production statistics entries accepted
    pub max_production_stats_length: u64,
}

impl CycleInfoDeserializer {
    /// Creates a deserializer that accepts at most `max_rolls_length` roll
    /// count entries and `max_production_stats_length` production statistics
    /// entries.
    pub fn new(max_rolls_length: u64, max_production_stats_length: u64) -> (r: CycleInfoDeserializer)
        ensures
            r.max_rolls_length == max_rolls_length,
            r.max_production_stats_length == max_production_stats_length,
    {
        CycleInfoDeserializer { max_rolls_length, max_production_stats_length }
    }

    #[verifier::rlimit(100)]

    #[verifier::spinoff_prover]
    fn read_body(&self, s: &[u8], pos: usize) -> (r: Result<
        (Vec<(Address, u64)>, Vec<bool>, Vec<(Address, ProductionStats)>, Option<hash::Hash>, usize),
        DecodeError,
    >)
        requires
            pos <= s@.len(),
        ensures
            r matches Ok((rl, seed, sl, snap, k)) ==> pos + k <= s@.len(),
            r matches Ok((rl, seed, sl, snap, k)) ==> seed@.len() <= max_bits(),
            r matches Ok((rl, seed, sl, snap, k)) ==> parse_cycle_body(
                s@.subrange(pos as int, s@.len() as int),
                self.max_rolls_length,
                self.max_production_stats_length,
            ) == Ok::<_, DecodeError>(
                (
                    entries_view(rl@),
                    seed@,
                    entries_view(sl@),
                    crate::cycle_info::opt_hash_view(snap),
                    k as nat,
                ),
            ),
            r matches Err(e) ==> parse_cycle_body(
                s@.subrange(pos as int, s@.len() as int),
                self.max_rolls_length,
                self.max_production_stats_length,
            ) == Err::<
                (Seq<(AddressView, u64)>, Seq<bool>, Seq<(AddressView, ProductionStats)>, Option<Seq<u8>>, nat),
                DecodeError,
            >(e),
    {
        let ghost t = s@.subrange(pos as int, s@.len() as int);
        reveal(parse_cycle_body);
        let len = s.len();
        let rolls = RollsDeserializer::new(self.max_rolls_length);
        let (roll_list, k2) = match rolls.read_at(s, pos) {
            Some(x) => x,
            None => return Err(DecodeError::RollCounts),
        };
        proof {
            lemma_varint_len(t);
            let (n, kn) = parse_varint(t).unwrap();
            lemma_roll_entries_len(t.subrange(kn as int, t.len() as int), n as nat);
        }
        let seed_pos = pos + k2;
        assert(t.subrange(k2 as int, t.len() as int) =~= s@.subrange(seed_pos as int, s@.len() as int));
        let (rng_seed, k3) = match read_bits(s, seed_pos) {
            Some(x) => x,
            None => return Err(DecodeError::RngSeed),
        };
        proof {
            lemma_varint_len(s@.subrange(seed_pos as int, s@.len() as int));
        }
        let stats_pos = seed_pos + k3;
        assert(t.subrange((k2 + k3) as int, t.len() as int) =~= s@.subrange(stats_pos as int, s@.len() as int));
        let stats = ProductionStatsDeserializer::new(self.max_production_stats_length);
        let (stats_list, k4) = match stats.read_at(s, stats_pos) {
            Some(x) => x,
            None => return Err(DecodeError::ProductionStats),
        };
        proof {
            let s4 = s@.subrange(stats_pos as int, s@.len() as int);
            lemma_varint_len(s4);
            let (n, kn) = parse_varint(s4).unwrap();
            lemma_stats_entries_len(s4.subrange(kn as int, s4.len() as int), n as nat);
        }
        let snapshot_pos = stats_pos + k4;
        assert(t.subrange((k2 + k3 + k4) as int, t.len() as int) =~= s@.subrange(snapshot_pos as int, s@.len() as int));
        let (snapshot, k5) = match read_opt_hash(s, snapshot_pos) {
            Some(x) => x,
            None => return Err(DecodeError::FinalStateHashSnapshot),
        };
        Ok((roll_list, rng_seed, stats_list, snapshot, k2 + k3 + k4 + k5))
    }

    fn read_at(&self, s: &[u8], pos: usize) -> (r: Result<(CycleInfo, usize), DecodeError>)
        requires
            pos <= s@.len(),
        ensures
            r matches Ok((c, k)) ==> pos + k <= s@.len(),
            r matches Ok((c, k)) ==> c.rng_seed@.len() <= max_bits(),
            r matches Ok((c, k)) ==> c.is_consistent() && parse_cycle_info(
                s@.subrange(pos as int, s@.len() as int),
                self.max_rolls_length,
                self.max_production_stats_length,
            ) == Ok::<(CycleInfoView, nat), DecodeError>((c@, k as nat)),
            r matches Err(e) ==> parse_cycle_info(
                s@.subrange(pos as int, s@.len() as int),
                self.max_rolls_length,
                self.max_production_stats_length,
            ) == Err::<(CycleInfoView, nat), DecodeError>(e),
    {
        let ghost t = s@.subrange(pos as int, s@.len() as int);
        reveal(parse_cycle_info);
        let len = s.len();
        let (cycle, k1) = match read_varint(s, pos) {
            Some(x) => x,
            None => return Err(DecodeError::Cycle),
        };
        proof {
            lemma_varint_len(t);
        }
        let flag_pos = pos + k1;
        if flag_pos >= len || s[flag_pos] > 1 {
            return Err(DecodeError::Complete);
        }
        assert(t[k1 as int] == s[flag_pos as int]);
        let complete = s[flag_pos] == 1;
        let body_pos = flag_pos + 1;
        assert(t.subrange((k1 + 1) as int, t.len() as int) =~= s@.subrange(body_pos as int, s@.len() as int));
        let (roll_list, rng_seed, stats_list, snapshot, kb) = match self.read_body(s, body_pos) {
            Ok(x) => x,
            Err(e) => return Err(e),
        };
        let roll_counts = entries_to_sorted_map(&roll_list);
        let production_stats = entries_to_map(&stats_list);
        proof {
            let rv = entries_view(roll_list@);
            assert forall|j: int| 0 <= j < rv.len() implies (#[trigger] rv[j]).0.1.len() == 32 by {
                assert(rv[j].0.1 == roll_list@[j].0.hash.bytes@);
            }
            lemma_from_sorted_entries_sorted(rv);
            lemma_from_entries_unique(entries_view(stats_list@));
        }
        let mut c = CycleInfo::new_with_hash(
            cycle,
            complete,
            roll_counts,
            rng_seed,
            production_stats,
        );
        c.final_state_hash_snapshot = snapshot;
        Ok((c, k1 + 1 + kb))
    }

    /// Decodes a cycle state at the start of `buffer`: the state, with its
    /// hashes computed from its data, and the number of bytes read.
    pub fn deserialize(&self, buffer: &[u8]) -> (r: Result<(CycleInfo, usize), DecodeError>)
        ensures
            r matches Ok((c, k)) ==> c.rng_seed@.len() <= max_bits(),
            r matches Ok((c, k)) ==> c.is_consistent() && parse_cycle_info(
                buffer@,
                self.max_rolls_length,
                self.max_production_stats_length,
            ) == Ok::<(CycleInfoView, nat), DecodeError>((c@, k as nat)),
            r matches Err(e) ==> parse_cycle_info(
                buffer@,
                self.max_rolls_length,
                self.max_production_stats_length,
            ) == Err::<(CycleInfoView, nat), DecodeError>(e),
    {
        assert(buffer@.subrange(0, buffer@.len() as int) =~= buffer@);
        self.read_at(buffer, 0)
    }
}

/// The encoding of what follows the completeness flag in the encoding of a
/// cycle.
pub open spec fn enc_cycle_body(v: CycleInfoView) -> Seq<u8> {
    enc_rolls(v.roll_counts) + enc_bits(v.rng_seed) + enc_stats(v.production_stats) + enc_opt_hash(
        v.final_state_hash_snapshot,
    )
}

#[verifier::rlimit(100)]

#[verifier::spinoff_prover]
proof fn lemma_cycle_body_round_trip(v: CycleInfoView, rest: Seq<u8>, max_rolls: u64, max_stats: u64)
    requires
        v.roll_counts.len() <= max_rolls,
        v.production_stats.len() <= max_stats,
        v.rng_seed.len() <= max_bits(),
        forall|i: int| 0 <= i < v.roll_counts.len() ==> (#[trigger] v.roll_counts[i]).0.1.len() == 32,
        forall|i: int| 0 <= i < v.production_stats.len() ==> (
        #[trigger] v.production_stats[i]).0.1.len() == 32,
        v.final_state_hash_snapshot matches Some(h) ==> h.len() == 32,
    ensures
        parse_cycle_body(enc_cycle_body(v) + rest, max_rolls, max_stats) == Ok::<_, DecodeError>(
            (
                v.roll_counts,
                v.rng_seed,
                v.production_stats,
                v.final_state_hash_snapshot,
                enc_cycle_body(v).len(),
            ),
        ),
{
    reveal(parse_cycle_body);
    let r = enc_rolls(v.roll_counts);
    let sb = enc_bits(v.rng_seed);
    let p = enc_stats(v.production_stats);
    let o = enc_opt_hash(v.final_state_hash_snapshot);
    let body = enc_cycle_body(v) + rest;
    assert(body =~= r + (sb + (p + (o + rest))));
    lemma_rolls_round_trip(v.roll_counts, sb + (p + (o + rest)), max_rolls);
    assert(body.subrange(r.len() as int, body.len() as int) =~= sb + (p + (o + rest)));
    lemma_bits_round_trip(v.rng_seed, p + (o + rest));
    assert(body.subrange((r.len() + sb.len()) as int, body.len() as int) =~= p + (o + rest));
    lemma_stats_round_trip(v.production_stats, o + rest, max_stats);
    assert(body.subrange((r.len() + sb.len() + p.len()) as int, body.len() as int) =~= o + rest);
    match v.final_state_hash_snapshot {
        Some(h) => {
            assert((o + rest).subrange(1, 33) =~= h);
        },
        None => {},
    }
}

#[verifier::rlimit(100)]

#[verifier::spinoff_prover]
proof fn lemma_cycle_view_round_trip(v: CycleInfoView, rest: Seq<u8>, max_rolls: u64, max_stats: u64)
    requires
        sorted_keys(v.roll_counts),
        unique_keys(v.production_stats),
        v.roll_counts.len() <= max_rolls,
        v.production_stats.len() <= max_stats,
        v.rng_seed.len() <= max_bits(),
        forall|i: int| 0 <= i < v.roll_counts.len() ==> (#[trigger] v.roll_counts[i]).0.1.len() == 32,
        forall|i: int| 0 <= i < v.production_stats.len() ==> (
        #[trigger] v.production_stats[i]).0.1.len() == 32,
        v.final_state_hash_snapshot matches Some(h) ==> h.len() == 32,
    ensures
        parse_cycle_info(enc_cycle_info(v) + rest, max_rolls, max_stats) == Ok::<
            (CycleInfoView, nat),
            DecodeError,
        >((v, enc_cycle_info(v).len())),
{
    reveal(parse_cycle_info);
    let a = enc_varint(v.cycle);
    let b = seq![if v.complete { 1u8 } else { 0u8 }];
    let body = enc_cycle_body(v) + rest;
    let s = enc_cycle_info(v) + rest;
    assert(s =~= a + (b + body));
    lemma_varint_round_trip(v.cycle, b + body);
    assert(s[a.len() as int] == b[0]);
    assert(s.subrange((a.len() + 1) as int, s.len() as int) =~= body);
    lemma_cycle_body_round_trip(v, rest, max_rolls, max_stats);
    lemma_from_sorted_entries_id(v.roll_counts);
    lemma_from_unique_entries(v.production_stats);
    assert(enc_cycle_info(v) =~= a + b + enc_cycle_body(v));
}

/// Decoding the encoding of a consistent cycle state within the bounds gives
/// back its data, whatever follows; the decoded state then has the same
/// hashes, as any two consistent states with the same data do.
pub proof fn lemma_cycle_info_round_trip(x: CycleInfo, rest: Seq<u8>, max_rolls: u64, max_stats: u64)
    requires
        x.is_consistent(),
        x.roll_counts@.len() <= max_rolls,
        x.production_stats@.len() <= max_stats,
        x.rng_seed@.len() <= max_bits(),
    ensures
        parse_cycle_info(enc_cycle_info(x@) + rest, max_rolls, max_stats) == Ok::<
            (CycleInfoView, nat),
            DecodeError,
        >((x@, enc_cycle_info(x@).len())),
{
    let v = x@;
    assert forall|i: int| 0 <= i < v.roll_counts.len() implies (#[trigger] v.roll_counts[i]).0.1.len()
        == 32 by {
        assert(v.roll_counts[i].0.1 == x.roll_counts@[i].0.hash.bytes@);
    }
    assert forall|i: int| 0 <= i < v.production_stats.len() implies (
    #[trigger] v.production_stats[i]).0.1.len() == 32 by {
        assert(v.production_stats[i].0.1 == x.production_stats@[i].0.hash.bytes@);
    }
    lemma_cycle_view_round_trip(v, rest, max_rolls, max_stats);
}

/// A cycle state whose declared number of roll count entries exceeds the
/// maximum is refused, whatever the bytes that follow.
pub proof fn lemma_roll_counts_bound(s: Seq<u8>, max_rolls: u64, max_stats: u64)
    requires
        parse_varint(s) matches Some((c, k)) && k < s.len() && s[k as int] <= 1 && (
        parse_varint(s.subrange((k + 1) as int, s.len() as int)) matches Some((n, kn)) && n > max_rolls),
    ensures
        parse_cycle_info(s, max_rolls, max_stats) == Err::<(CycleInfoView, nat), DecodeError>(
            DecodeError::RollCounts,
        ),
{
    reveal(parse_cycle_info);
    reveal(parse_cycle_body);
}

/// The data of each cycle state of a history.
pub open spec fn infos_view(v: Seq<CycleInfo>) -> Seq<CycleInfoView> {
    Seq::new(v.len(), |i: int| v[i]@)
}

/// The encoding of cycle states, one after the other.
pub open spec fn enc_cycle_infos(vs: Seq<CycleInfoView>) -> Seq<u8>
    decreases vs.len(),
{
    if vs.len() == 0 {
        Seq::empty()
    } else {
        enc_cycle_infos(vs.drop_last()) + enc_cycle_info(vs.last())
    }
}

/// The encoding of a cycle history: its number of cycles, then each cycle.
pub open spec fn enc_history(vs: Seq<CycleInfoView>) -> Seq<u8> {
    enc_varint(vs.len() as u64) + enc_cycle_infos(vs)
}

/// Decodes `n` cycle states at the start of `s`.
pub open spec fn parse_cycle_infos(s: Seq<u8>, n: nat, max_rolls: u64, max_stats: u64) -> Result<
    (Seq<CycleInfoView>, nat),
    DecodeError,
>
    decreases n,
{
    if n == 0 {
        Ok((Seq::empty(), 0))
    } else {
        match parse_cycle_infos(s, (n - 1) as nat, max_rolls, max_stats) {
            Err(e) => Err(e),
            Ok((vs, k)) => match parse_cycle_info(
                s.subrange(k as int, s.len() as int),
                max_rolls,
                max_stats,
            ) {
                Err(e) => Err(e),
                Ok((v, kv)) => Ok((vs.push(v), k + kv)),
            },
        }
    }
}

/// Decodes a cycle history of at most `max_history` cycles at the start of `s`.
pub open spec fn parse_history(s: Seq<u8>, max_history: u64, max_rolls: u64, max_stats: u64) -> Result<
    (Seq<CycleInfoView>, nat),
    DecodeError,
> {
    match parse_varint(s) {
        None => Err(DecodeError::CycleHistoryLength),
        Some((n, k)) => {
            if n > max_history {
                Err(DecodeError::CycleHistoryLength)
            } else {
                match parse_cycle_infos(
                    s.subrange(k as int, s.len() as int),
                    n as nat,
                    max_rolls,
                    max_stats,
                ) {
                    Err(e) => Err(e),
                    Ok((vs, kv)) => Ok((vs, k + kv)),
                }
            }
        },
    }
}

proof fn lemma_cycle_infos_fail(s: Seq<u8>, i: nat, n: nat, max_rolls: u64, max_stats: u64)
    requires
        i <= n,
        parse_cycle_infos(s, i, max_rolls, max_stats) is Err,
    ensures
        parse_cycle_infos(s, n, max_rolls, max_stats) == parse_cycle_infos(s, i, max_rolls, max_stats),
    decreases n - i,
{
    if i < n {
        lemma_cycle_infos_fail(s, i + 1, n, max_rolls, max_stats);
    }
}

/// Serializer for cycle histories.
pub struct CycleHistorySerializer {}

impl Default for CycleHistorySerializer {
    fn default() -> (r: CycleHistorySerializer)
        ensures
            r == (CycleHistorySerializer {}),
    {
        CycleHistorySerializer::new()
    }
}

impl CycleHistorySerializer {
    /// Creates a cycle history serializer.
    pub fn new() -> (r: CycleHistorySerializer)
        ensures
            r == (CycleHistorySerializer {}),
    {
        CycleHistorySerializer {}
    }

    /// Appends the encoding of `value` to `buffer`.
    pub fn serialize(&self, value: &VecDeque<CycleInfo>, buffer: &mut Vec<u8>)
        requires
            forall|i: int| 0 <= i < value@.len() ==> (#[trigger] value@[i]).rng_seed@.len() <= max_bits(),
        ensures
            final(buffer)@ == old(buffer)@ + enc_history(infos_view(value@)),
    {
        let ghost iv = infos_view(value@);
        write_varint(value.len() as u64, buffer);
        let ghost start = buffer@;
        let ser = CycleInfoSerializer::new();
        let mut i: usize = 0;
        while i < value.len()
            invariant
                0 <= i <= value@.len(),
                iv == infos_view(value@),
                forall|j: int| 0 <= j < value@.len() ==> (#[trigger] value@[j]).rng_seed@.len() <= max_bits(),
                buffer@ == start + enc_cycle_infos(iv.subrange(0, i as int)),
            decreases value@.len() - i,
        {
            ser.serialize(&value[i], buffer);
            proof {
                assert(iv.subrange(0, i + 1).drop_last() =~= iv.subrange(0, i as int));
                assert(buffer@ =~= start + enc_cycle_infos(iv.subrange(0, i + 1)));
            }
            i = i + 1;
        }
        assert(iv.subrange(0, i as int) =~= iv);
        assert(buffer@ =~= old(buffer)@ + enc_history(iv));
    }
}

/// Deserializer for cycle histories.
pub struct CycleHistoryDeserializer {
    /// largest number of cycles accepted
    pub max_cycle_history_length: u64,
    /// deserializer of each cycle
    pub cycle_info_deserializer: CycleInfoDeserializer,
}

impl CycleHistoryDeserializer {
    /// Creates a deserializer that accepts at most `max_cycle_history_length`
    /// cycles, each with at most `max_rolls_length` roll count entries and
    /// `max_production_stats_length` production statistics entries.
    pub fn new(max_cycle_history_length: u64, max_rolls_length: u64, max_production_stats_length: u64) -> (r: CycleHistoryDeserializer)
        ensures
            r.max_cycle_history_length == max_cycle_history_length,
            r.cycle_info_deserializer.max_rolls_length == max_rolls_length,
            r.cycle_info_deserializer.max_production_stats_length == max_production_stats_length,
    {
        CycleHistoryDeserializer {
            max_cycle_history_length,
            cycle_info_deserializer: CycleInfoDeserializer::new(
                max_rolls_length,
                max_production_stats_length,
            ),
        }
    }

    /// Decodes a cycle history at the start of `buffer`: the cycle states, in
    /// order, and the number of bytes read.
    pub fn deserialize(&self, buffer: &[u8]) -> (r: Result<(Vec<CycleInfo>, usize), DecodeError>)
        ensures
            r matches Ok((v, k)) ==> forall|i: int|
                0 <= i < v@.len() ==> (#[trigger] v@[i]).rng_seed@.len() <= max_bits(),
            r matches Ok((v, k)) ==> (forall|i: int| 0 <= i < v@.len() ==> (#[trigger] v@[i]).is_consistent())
                && parse_history(
                buffer@,
                self.max_cycle_history_length,
                self.cycle_info_deserializer.max_rolls_length,
                self.cycle_info_deserializer.max_production_stats_length,
            ) == Ok::<(Seq<CycleInfoView>, nat), DecodeError>((infos_view(v@), k as nat)),
            r matches Err(e) ==> parse_history(
                buffer@,
                self.max_cycle_history_length,
                self.cycle_info_deserializer.max_rolls_length,
                self.cycle_info_deserializer.max_production_stats_length,
            ) == Err::<(Seq<CycleInfoView>, nat), DecodeError>(e),
    {
        let ghost mr = self.cycle_info_deserializer.max_rolls_length;
        let ghost ms = self.cycle_info_deserializer.max_production_stats_length;
        let len = buffer.len();
        assert(buffer@.subrange(0, buffer@.len() as int) =~= buffer@);
        let (n, k) = match read_varint(buffer, 0) {
            Some(x) => x,
            None => return Err(DecodeError::CycleHistoryLength),
        };
        if n > self.max_cycle_history_length {
            return Err(DecodeError::CycleHistoryLength);
        }
        proof {
            lemma_varint_len(buffer@);
        }
        let ghost t = buffer@.subrange(k as int, buffer@.len() as int);
        let mut out: Vec<CycleInfo> = Vec::new();
        assert(infos_view(out@) =~= Seq::<CycleInfoView>::empty());
        let mut p = k;
        let mut i: u64 = 0;
        while i < n
            invariant
                0 <= i <= n,
                k <= p <= len,
                len == buffer@.len(),
                parse_varint(buffer@) == Some((n, k as nat)),
                n <= self.max_cycle_history_length,
                t == buffer@.subrange(k as int, buffer@.len() as int),
                mr == self.cycle_info_deserializer.max_rolls_length,
                ms == self.cycle_info_deserializer.max_production_stats_length,
                forall|j: int| 0 <= j < out@.len() ==> (#[trigger] out@[j]).is_consistent(),
                forall|j: int| 0 <= j < out@.len() ==> (#[trigger] out@[j]).rng_seed@.len() <= max_bits(),
                parse_cycle_infos(t, i as nat, mr, ms) == Ok::<(Seq<CycleInfoView>, nat), DecodeError>(
                    (infos_view(out@), (p - k) as nat),
                ),
            decreases n - i,
        {
            assert(buffer@.subrange(p as int, buffer@.len() as int) =~= t.subrange(
                p - k,
                t.len() as int,
            ));
            let (c, kc) = match self.cycle_info_deserializer.read_at(buffer, p) {
                Ok(x) => x,
                Err(e) => {
                    proof {
                        assert(parse_cycle_infos(t, (i + 1) as nat, mr, ms) == Err::<
                            (Seq<CycleInfoView>, nat),
                            DecodeError,
                        >(e));
                        lemma_cycle_infos_fail(t, (i + 1) as nat, n as nat, mr, ms);
                        assert(buffer@.subrange(k as int, buffer@.len() as int) == t);
                        assert(parse_varint(buffer@) == Some((n, k as nat)));
                        assert(n <= self.max_cycle_history_length);
                        assert(parse_cycle_infos(t, n as nat, mr, ms) == Err::<
                            (Seq<CycleInfoView>, nat),
                            DecodeError,
                        >(e));
                        assert(parse_history(
                            buffer@,
                            self.max_cycle_history_length,
                            mr,
                            ms,
                        ) == Err::<(Seq<CycleInfoView>, nat), DecodeError>(e));
                    }
                    return Err(e);
                },
            };
            let ghost prev = out@;
            out.push(c);
            p = p + kc;
            i = i + 1;
            assert(infos_view(out@) =~= infos_view(prev).push(c@));
        }
        Ok((out, p))
    }
}

/// Whether the data of a cycle is decoded back from its encoding within the
/// given bounds.
pub open spec fn encodable(v: CycleInfoView, max_rolls: u64, max_stats: u64) -> bool {
    &&& sorted_keys(v.roll_counts)
    &&& unique_keys(v.production_stats)
    &&& v.roll_counts.len() <= max_rolls
    &&& v.production_stats.len() <= max_stats
    &&& v.rng_seed.len() <= max_bits()
    &&& forall|i: int| 0 <= i < v.roll_counts.len() ==> (#[trigger] v.roll_counts[i]).0.1.len() == 32
    &&& forall|i: int|
        0 <= i < v.production_stats.len() ==> (#[trigger] v.production_stats[i]).0.1.len() == 32
    &&& v.final_state_hash_snapshot matches Some(h) ==> h.len() == 32
}

proof fn lemma_cycle_infos_round_trip(vs: Seq<CycleInfoView>, rest: Seq<u8>, max_rolls: u64, max_stats: u64)
    requires
        forall|i: int| 0 <= i < vs.len() ==> encodable(#[trigger] vs[i], max_rolls, max_stats),
    ensures
        parse_cycle_infos(enc_cycle_infos(vs) + rest, vs.len(), max_rolls, max_stats) == Ok::<
            (Seq<CycleInfoView>, nat),
            DecodeError,
        >((vs, enc_cycle_infos(vs).len())),
    decreases vs.len(),
{
    if vs.len() > 0 {
        let d = vs.drop_last();
        let e = vs.last();
        let s = enc_cycle_infos(vs) + rest;
        let tail = enc_cycle_info(e) + rest;
        assert(s =~= enc_cycle_infos(d) + tail);
        assert(encodable(vs[vs.len() - 1], max_rolls, max_stats));
        lemma_cycle_infos_round_trip(d, tail, max_rolls, max_stats);
        let k = enc_cycle_infos(d).len();
        assert(s.subrange(k as int, s.len() as int) =~= tail);
        lemma_cycle_view_round_trip(e, rest, max_rolls, max_stats);
        assert(parse_cycle_infos(s, d.len(), max_rolls, max_stats) == Ok::<
            (Seq<CycleInfoView>, nat),
            DecodeError,
        >((d, k)));
        assert(parse_cycle_info(s.subrange(k as int, s.len() as int), max_rolls, max_stats) == Ok::<
            (CycleInfoView, nat),
            DecodeError,
        >((e, enc_cycle_info(e).len())));
        assert(d.push(e) =~= vs);
        assert((vs.len() - 1) as nat == d.len());
        assert(enc_cycle_infos(vs).len() == k + enc_cycle_info(e).len());
    } else {
        assert(vs =~= Seq::<CycleInfoView>::empty());
    }
}

/// Decoding the encoding of a history of consistent cycle states within the
/// bounds gives back the data of each cycle, in order, whatever follows.
pub proof fn lemma_history_round_trip(
    h: Seq<CycleInfo>,
    rest: Seq<u8>,
    max_history: u64,
    max_rolls: u64,
    max_stats: u64,
)
    requires
        h.len() <= max_history,
        forall|i: int|
            0 <= i < h.len() ==> {
                let x = #[trigger] h[i];
                &&& x.is_consistent()
                &&& x.roll_counts@.len() <= max_rolls
                &&& x.production_stats@.len() <= max_stats
                &&& x.rng_seed@.len() <= max_bits()
            },
    ensures
        parse_history(enc_history(infos_view(h)) + rest, max_history, max_rolls, max_stats) == Ok::<
            (Seq<CycleInfoView>, nat),
            DecodeError,
        >((infos_view(h), enc_history(infos_view(h)).len())),
{
    let vs = infos_view(h);
    assert forall|i: int| 0 <= i < vs.len() implies encodable(#[trigger] vs[i], max_rolls, max_stats) by {
        let x = h[i];
        let v = vs[i];
        assert(v == x@);
        assert forall|j: int| 0 <= j < v.roll_counts.len() implies (
        #[trigger] v.roll_counts[j]).0.1.len() == 32 by {
            assert(v.roll_counts[j].0.1 == x.roll_counts@[j].0.hash.bytes@);
        }
        assert forall|j: int| 0 <= j < v.production_stats.len() implies (
        #[trigger] v.production_stats[j]).0.1.len() == 32 by {
            assert(v.production_stats[j].0.1 == x.production_stats@[j].0.hash.bytes@);
        }
    }
    let s = enc_history(vs) + rest;
    lemma_varint_round_trip(vs.len() as u64, enc_cycle_infos(vs) + rest);
    assert(s =~= enc_varint(vs.len() as u64) + (enc_cycle_infos(vs) + rest));
    let k = enc_varint(vs.len() as u64).len();
    assert(s.subrange(k as int, s.len() as int) =~= enc_cycle_infos(vs) + rest);
    lemma_cycle_infos_round_trip(vs, rest, max_rolls, max_stats);
}

} // verus!
