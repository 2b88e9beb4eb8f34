//! The state of one cycle and its aggregate hashes.
use vstd::prelude::*;
use crate::address::{Address, enc_address};
use crate::bits::{enc_bits, max_bits, write_bits};
use crate::entries::{sorted_insert, sorted_keys, lemma_sorted_remove_then_insert};
use crate::hash;
use crate::hash::{digest_of, xor_bytes, zero_bytes, lemma_xor_associative, lemma_xor_commutative, lemma_xor_cancel};
use crate::stats::ProductionStats;
use crate::varint::{enc_varint, write_varint};

verus! {

broadcast use vstd::seq_lib::group_seq_properties;

/// An address as the contracts see it: its category and its hash bytes.
pub type AddressView = (bool, Seq<u8>);

/// Whether no two entries of `s` have the same address.
pub open spec fn unique_keys<V>(s: Seq<(AddressView, V)>) -> bool {
    forall|i: int, j: int| 0 <= i < j < s.len() ==> s[i].0 != s[j].0
}

/// Whether every address of `s` has a 32-byte hash.
pub open spec fn well_formed_keys<V>(s: Seq<(AddressView, V)>) -> bool {
    forall|i: int| 0 <= i < s.len() ==> (#[trigger] s[i]).0.1.len() == 32
}

/// Entries keyed by address as the contracts see them.
pub open spec fn entries_view<V>(v: Seq<(Address, V)>) -> Seq<(AddressView, V)> {
    Seq::new(v.len(), |i: int| (v[i].0@, v[i].1))
}

/// Exclusive-or of `f` over the elements of `s`, from the all-zero hash.
pub open spec fn fold_xor<T>(s: Seq<T>, f: spec_fn(T) -> Seq<u8>) -> Seq<u8>
    decreases s.len(),
{
    if s.len() == 0 {
        zero_bytes()
    } else {
        xor_bytes(fold_xor(s.drop_last(), f), f(s.last()))
    }
}

/// Hash of one roll count entry.
pub open spec fn roll_entry_hash(e: (AddressView, u64)) -> Seq<u8> {
    digest_of(enc_address(e.0) + enc_varint(e.1))
}

/// Hash of one production statistics entry.
pub open spec fn stats_entry_hash(e: (AddressView, ProductionStats)) -> Seq<u8> {
    digest_of(
        enc_address(e.0) + enc_varint(e.1.block_success_count) + enc_varint(
            e.1.block_failure_count,
        ),
    )
}

/// Aggregate hash of roll counts.
pub open spec fn rolls_hash(r: Seq<(AddressView, u64)>) -> Seq<u8> {
    fold_xor(r, |e: (AddressView, u64)| roll_entry_hash(e))
}

/// Aggregate hash of production statistics.
pub open spec fn stats_hash(p: Seq<(AddressView, ProductionStats)>) -> Seq<u8> {
    fold_xor(p, |e: (AddressView, ProductionStats)| stats_entry_hash(e))
}

/// Hash of a whole cycle.
pub open spec fn global_hash(
    cycle: u64,
    complete: bool,
    seed: Seq<bool>,
    rolls_h: Seq<u8>,
    stats_h: Seq<u8>,
) -> Seq<u8> {
    digest_of(
        digest_of(enc_varint(cycle)) + digest_of(enc_varint(if complete { 1 } else { 0 }))
            + digest_of(enc_bits(seed)) + rolls_h + stats_h,
    )
}

/// State of a cycle for all threads.
#[derive(Clone, Debug, PartialEq, Eq)]
pub struct CycleInfo {
    /// cycle number
    pub cycle: u64,
    /// whether the cycle is complete (all slots final)
    pub complete: bool,
    /// number of rolls each staking address has
    pub roll_counts: Vec<(Address, u64)>,
    /// random seed bits of all slots in the cycle so far
    pub rng_seed: Vec<bool>,
    /// per-address production statistics
    pub production_stats: Vec<(Address, ProductionStats)>,
    /// hash of the roll counts
    pub roll_counts_hash: hash::Hash,
    /// hash of the production statistics
    pub production_stats_hash: hash::Hash,
    /// hash of the cycle state
    pub cycle_global_hash: hash::Hash,
    /// snapshot of the final state hash, used for selections
    pub final_state_hash_snapshot: Option<hash::Hash>,
}

/// The data of a cycle, without the hashes derived from it.
pub struct CycleInfoView {
    pub cycle: u64,
    pub complete: bool,
    pub roll_counts: Seq<(AddressView, u64)>,
    pub rng_seed: Seq<bool>,
    pub production_stats: Seq<(AddressView, ProductionStats)>,
    pub final_state_hash_snapshot: Option<Seq<u8>>,
}

/// A snapshot hash as the contracts see it.
pub open spec fn opt_hash_view(o: Option<hash::Hash>) -> Option<Seq<u8>> {
    match o {
        Some(h) => Some(h@),
        None => None,
    }
}

impl View for CycleInfo {
    type V = CycleInfoView;

    open spec fn view(&self) -> CycleInfoView {
        CycleInfoView {
            cycle: self.cycle,
            complete: self.complete,
            roll_counts: entries_view(self.roll_counts@),
            rng_seed: self.rng_seed@,
            production_stats: entries_view(self.production_stats@),
            final_state_hash_snapshot: opt_hash_view(self.final_state_hash_snapshot),
        }
    }
}

impl CycleInfo {
    /// Whether the roll counts are sorted by address, the production
    /// statistics have one entry per address, and the three stored hashes
    /// are those of the data.
    pub open spec fn is_consistent(&self) -> bool {
        &&& sorted_keys(self@.roll_counts)
        &&& unique_keys(self@.production_stats)
        &&& self.roll_counts_hash@ == rolls_hash(self@.roll_counts)
        &&& self.production_stats_hash@ == stats_hash(self@.production_stats)
        &&& self.cycle_global_hash@ == global_hash(
            self.cycle,
            self.complete,
            self.rng_seed@,
            self.roll_counts_hash@,
            self.production_stats_hash@,
        )
    }

    /// Creates a cycle state and computes its hashes.
    pub fn new_with_hash(
        cycle: u64,
        complete: bool,
        roll_counts: Vec<(Address, u64)>,
        rng_seed: Vec<bool>,
        production_stats: Vec<(Address, ProductionStats)>,
    ) -> (r: CycleInfo)
        requires
            sorted_keys(entries_view(roll_counts@)),
            unique_keys(entries_view(production_stats@)),
            rng_seed@.len() <= max_bits(),
        ensures
            r.cycle == cycle,
            r.complete == complete,
            r.roll_counts == roll_counts,
            r.rng_seed == rng_seed,
            r.production_stats == production_stats,
            r.final_state_hash_snapshot is None,
            r.is_consistent(),
    {
        let mut hash_concat: Vec<u8> = Vec::new();
        compute_cycle_hash(cycle).write_to(&mut hash_concat);
        compute_complete_hash(complete).write_to(&mut hash_concat);
        compute_seed_hash(&rng_seed).write_to(&mut hash_concat);
        let roll_counts_hash = compute_rolls_hash(&roll_counts);
        roll_counts_hash.write_to(&mut hash_concat);
        let production_stats_hash = compute_stats_hash(&production_stats);
        production_stats_hash.write_to(&mut hash_concat);
        let cycle_global_hash = hash::Hash::compute_from(&hash_concat);
        let r = CycleInfo {
            cycle,
            complete,
            roll_counts,
            rng_seed,
            production_stats,
            roll_counts_hash,
            production_stats_hash,
            cycle_global_hash,
            final_state_hash_snapshot: None,
        };
        assert(hash_concat@ =~= digest_of(enc_varint(cycle)) + digest_of(
            enc_varint(if complete { 1 } else { 0 }),
        ) + digest_of(enc_bits(rng_seed@)) + roll_counts_hash@ + production_stats_hash@);
        r
    }
}

fn compute_cycle_hash(cycle: u64) -> (r: hash::Hash)
    ensures
        r@ == digest_of(enc_varint(cycle)),
{
    let mut buffer: Vec<u8> = Vec::new();
    write_varint(cycle, &mut buffer);
    assert(buffer@ =~= enc_varint(cycle));
    hash::Hash::compute_from(&buffer)
}

fn compute_complete_hash(complete: bool) -> (r: hash::Hash)
    ensures
        r@ == digest_of(enc_varint(if complete { 1 } else { 0 })),
{
    let mut buffer: Vec<u8> = Vec::new();
    write_varint(if complete { 1 } else { 0 }, &mut buffer);
    assert(buffer@ =~= enc_varint(if complete { 1 } else { 0 }));
    hash::Hash::compute_from(&buffer)
}

fn compute_seed_hash(seed: &Vec<bool>) -> (r: hash::Hash)
    requires
        seed@.len() <= max_bits(),
    ensures
        r@ == digest_of(enc_bits(seed@)),
{
    let mut buffer: Vec<u8> = Vec::new();
    write_bits(seed, &mut buffer);
    assert(buffer@ =~= enc_bits(seed@));
    hash::Hash::compute_from(&buffer)
}

fn compute_roll_entry_hash(address: &Address, roll_count: u64) -> (r: hash::Hash)
    ensures
        r@ == roll_entry_hash((address@, roll_count)),
{
    let mut buffer: Vec<u8> = Vec::new();
    address.write_to(&mut buffer);
    write_varint(roll_count, &mut buffer);
    assert(buffer@ =~= enc_address(address@) + enc_varint(roll_count));
    hash::Hash::compute_from(&buffer)
}

fn compute_prod_stats_entry_hash(address: &Address, prod_stats: &ProductionStats) -> (r: hash::Hash)
    ensures
        r@ == stats_entry_hash((address@, *prod_stats)),
{
    let mut buffer: Vec<u8> = Vec::new();
    address.write_to(&mut buffer);
    write_varint(prod_stats.block_success_count, &mut buffer);
    write_varint(prod_stats.block_failure_count, &mut buffer);
    assert(buffer@ =~= enc_address(address@) + enc_varint(prod_stats.block_success_count)
        + enc_varint(prod_stats.block_failure_count));
    hash::Hash::compute_from(&buffer)
}

fn compute_rolls_hash(roll_counts: &Vec<(Address, u64)>) -> (r: hash::Hash)
    ensures
        r@ == rolls_hash(entries_view(roll_counts@)),
{
    let ghost rv = entries_view(roll_counts@);
    let mut acc = hash::Hash::zero();
    let mut i: usize = 0;
    while i < roll_counts.len()
        invariant
            0 <= i <= roll_counts@.len(),
            rv == entries_view(roll_counts@),
            acc@ == rolls_hash(rv.subrange(0, i as int)),
        decreases roll_counts@.len() - i,
    {
        let h = compute_roll_entry_hash(&roll_counts[i].0, roll_counts[i].1);
        acc = acc.xor(&h);
        proof {
            assert(rv.subrange(0, i + 1).drop_last() =~= rv.subrange(0, i as int));
        }
        i = i + 1;
    }
    assert(rv.subrange(0, i as int) =~= rv);
    acc
}

fn compute_stats_hash(production_stats: &Vec<(Address, ProductionStats)>) -> (r: hash::Hash)
    ensures
        r@ == stats_hash(entries_view(production_stats@)),
{
    let ghost pv = entries_view(production_stats@);
    let mut acc = hash::Hash::zero();
    let mut i: usize = 0;
    while i < production_stats.len()
        invariant
            0 <= i <= production_stats@.len(),
            pv == entries_view(production_stats@),
            acc@ == stats_hash(pv.subrange(0, i as int)),
        decreases production_stats@.len() - i,
    {
        let h = compute_prod_stats_entry_hash(&production_stats[i].0, &production_stats[i].1);
        acc = acc.xor(&h);
        proof {
            assert(pv.subrange(0, i + 1).drop_last() =~= pv.subrange(0, i as int));
        }
        i = i + 1;
    }
    assert(pv.subrange(0, i as int) =~= pv);
    acc
}

proof fn lemma_fold_xor_remove<T>(s: Seq<T>, f: spec_fn(T) -> Seq<u8>, i: int)
    requires
        0 <= i < s.len(),
    ensures
        fold_xor(s, f) == xor_bytes(fold_xor(s.remove(i), f), f(s[i])),
    decreases s.len(),
{
    if i == s.len() - 1 {
        assert(s.remove(i) =~= s.drop_last());
    } else {
        let d = s.drop_last();
        lemma_fold_xor_remove(d, f, i);
        assert(s.remove(i).drop_last() =~= d.remove(i));
        assert(s.remove(i).last() == s.last());
        let a = fold_xor(d.remove(i), f);
        lemma_xor_associative(a, f(s[i]), f(s.last()));
        lemma_xor_commutative(f(s[i]), f(s.last()));
        lemma_xor_associative(a, f(s.last()), f(s[i]));
    }
}

proof fn lemma_fold_xor_permutation<T>(a: Seq<T>, b: Seq<T>, f: spec_fn(T) -> Seq<u8>)
    requires
        a.to_multiset() == b.to_multiset(),
    ensures
        fold_xor(a, f) == fold_xor(b, f),
    decreases a.len(),
{
    if a.len() == 0 {
        assert(b.to_multiset().len() == 0);
        assert(b.len() == 0);
    } else {
        let x = a.last();
        assert(a.drop_last().push(x) =~= a);
        assert(a.to_multiset().count(x) > 0);
        assert(b.contains(x));
        let i = choose|i: int| 0 <= i < b.len() && b[i] == x;
        assert(b.remove(i).to_multiset() =~= a.drop_last().to_multiset());
        lemma_fold_xor_permutation(a.drop_last(), b.remove(i), f);
        lemma_fold_xor_remove(b, f, i);
    }
}

/// Adding an entry to roll counts updates their hash by one exclusive-or with
/// the entry's hash.
pub proof fn lemma_rolls_hash_push(r: Seq<(AddressView, u64)>, e: (AddressView, u64))
    ensures
        rolls_hash(r.push(e)) == xor_bytes(rolls_hash(r), roll_entry_hash(e)),
{
    assert(r.push(e).drop_last() =~= r);
}

/// Removing an entry from roll counts updates their hash by one exclusive-or
/// with the entry's hash.
pub proof fn lemma_rolls_hash_remove(r: Seq<(AddressView, u64)>, i: int)
    requires
        0 <= i < r.len(),
    ensures
        rolls_hash(r.remove(i)) == xor_bytes(rolls_hash(r), roll_entry_hash(r[i])),
{
    let f = |e: (AddressView, u64)| roll_entry_hash(e);
    lemma_fold_xor_remove(r, f, i);
    lemma_xor_cancel(rolls_hash(r.remove(i)), roll_entry_hash(r[i]));
}

/// Removing a roll count entry and adding it back leaves the aggregate hash
/// unchanged.
pub proof fn lemma_rolls_hash_remove_then_add(r: Seq<(AddressView, u64)>, i: int)
    requires
        0 <= i < r.len(),
    ensures
        rolls_hash(r.remove(i).push(r[i])) == rolls_hash(r),
{
    lemma_rolls_hash_push(r.remove(i), r[i]);
    lemma_rolls_hash_remove(r, i);
    lemma_fold_xor_remove(r, |e: (AddressView, u64)| roll_entry_hash(e), i);
}

/// Adding an entry to production statistics updates their hash by one
/// exclusive-or with the entry's hash.
pub proof fn lemma_stats_hash_push(p: Seq<(AddressView, ProductionStats)>, e: (AddressView, ProductionStats))
    ensures
        stats_hash(p.push(e)) == xor_bytes(stats_hash(p), stats_entry_hash(e)),
{
    assert(p.push(e).drop_last() =~= p);
}

/// Removing an entry from production statistics updates their hash by one
/// exclusive-or with the entry's hash.
pub proof fn lemma_stats_hash_remove(p: Seq<(AddressView, ProductionStats)>, i: int)
    requires
        0 <= i < p.len(),
    ensures
        stats_hash(p.remove(i)) == xor_bytes(stats_hash(p), stats_entry_hash(p[i])),
{
    let f = |e: (AddressView, ProductionStats)| stats_entry_hash(e);
    lemma_fold_xor_remove(p, f, i);
    lemma_xor_cancel(stats_hash(p.remove(i)), stats_entry_hash(p[i]));
}

/// The aggregate hashes do not depend on the order of the entries: two
/// consistent cycle states with the same cycle, completeness, seed and the
/// same entries in any order have the same three hashes.
pub proof fn lemma_hashes_order_independent(x: CycleInfo, y: CycleInfo)
    requires
        x.is_consistent(),
        y.is_consistent(),
        x.cycle == y.cycle,
        x.complete == y.complete,
        x.rng_seed@ == y.rng_seed@,
        x@.roll_counts.to_multiset() == y@.roll_counts.to_multiset(),
        x@.production_stats.to_multiset() == y@.production_stats.to_multiset(),
    ensures
        x.roll_counts_hash@ == y.roll_counts_hash@,
        x.production_stats_hash@ == y.production_stats_hash@,
        x.cycle_global_hash@ == y.cycle_global_hash@,
{
    lemma_fold_xor_permutation(
        x@.roll_counts,
        y@.roll_counts,
        |e: (AddressView, u64)| roll_entry_hash(e),
    );
    lemma_fold_xor_permutation(
        x@.production_stats,
        y@.production_stats,
        |e: (AddressView, ProductionStats)| stats_entry_hash(e),
    );
}

/// The hashes are a function of the data: two consistent cycle states with
/// the same data have the same three hashes.
pub proof fn lemma_hashes_deterministic(x: CycleInfo, y: CycleInfo)
    requires
        x.is_consistent(),
        y.is_consistent(),
        x@ == y@,
    ensures
        x.roll_counts_hash@ == y.roll_counts_hash@,
        x.production_stats_hash@ == y.production_stats_hash@,
        x.cycle_global_hash@ == y.cycle_global_hash@,
{
}

/// Removing a roll count entry and inserting it back, by address, into the
/// sorted roll counts leaves every hash of the cycle unchanged: a cycle state
/// built from the result has the hashes of the one built from the original.
pub proof fn lemma_roll_remove_then_insert_same_hashes(x: CycleInfo, y: CycleInfo, i: int)
    requires
        x.is_consistent(),
        y.is_consistent(),
        0 <= i < x@.roll_counts.len(),
        y@.roll_counts == sorted_insert(x@.roll_counts.remove(i), x@.roll_counts[i]),
        y.cycle == x.cycle,
        y.complete == x.complete,
        y.rng_seed@ == x.rng_seed@,
        y@.production_stats == x@.production_stats,
    ensures
        y@.roll_counts == x@.roll_counts,
        y.roll_counts_hash@ == x.roll_counts_hash@,
        y.production_stats_hash@ == x.production_stats_hash@,
        y.cycle_global_hash@ == x.cycle_global_hash@,
{
    lemma_sorted_remove_then_insert(x@.roll_counts, i);
}

} // verus!
