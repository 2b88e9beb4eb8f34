use std::collections::VecDeque;

use massa_pos_exports::address::Address;
use massa_pos_exports::codec::{
    CycleHistoryDeserializer, CycleHistorySerializer, CycleInfoDeserializer, CycleInfoSerializer,
    DecodeError, ProductionStatsDeserializer, ProductionStatsSerializer, RollsDeserializer,
};
use massa_pos_exports::cycle_info::CycleInfo;
use massa_pos_exports::entries::{address_lt, insert_sorted_entry};
use massa_pos_exports::hash;
use massa_pos_exports::stats::ProductionStats;

fn addr(is_sc: bool, b: u8) -> Address {
    Address { is_sc, hash: hash::Hash::from_bytes(&[b; 32]) }
}

fn addr_bytes(a: &Address) -> Vec<u8> {
    let mut v = vec![if a.is_sc { 1u8 } else { 0u8 }, 0u8];
    v.extend_from_slice(&a.hash.to_bytes());
    v
}

fn blake(data: &[u8]) -> [u8; 32] {
    *blake3::hash(data).as_bytes()
}

fn xor(a: [u8; 32], b: [u8; 32]) -> [u8; 32] {
    let mut r = [0u8; 32];
    for i in 0..32 {
        r[i] = a[i] ^ b[i];
    }
    r
}

fn encode(c: &CycleInfo) -> Vec<u8> {
    let mut buf = Vec::new();
    CycleInfoSerializer::new().serialize(c, &mut buf);
    buf
}

fn sample() -> CycleInfo {
    let mut c = CycleInfo::new_with_hash(
        7,
        true,
        vec![(addr(false, 1), 3), (addr(true, 2), 300)],
        vec![true, false, true, true, false, false, false, false, true],
        vec![
            (addr(false, 1), ProductionStats { block_success_count: 4, block_failure_count: 1 }),
            (addr(false, 9), ProductionStats { block_success_count: 0, block_failure_count: 2 }),
        ],
    );
    c.final_state_hash_snapshot = Some(hash::Hash::from_bytes(&[0xab; 32]));
    c
}

#[test]
fn end_to_end_cycle_five() {
    let a = addr(false, 0xa);
    let b = addr(false, 0xb);
    let c = CycleInfo::new_with_hash(5, false, vec![(a, 10), (b, 20)], vec![], vec![]);
    let bytes = encode(&c);
    let (d, n) = CycleInfoDeserializer::new(1000, 1000).deserialize(&bytes).unwrap();
    assert_eq!(n, bytes.len());
    assert_eq!(d, c);

    let mut ea = addr_bytes(&a);
    ea.push(10);
    let mut eb = addr_bytes(&b);
    eb.push(20);
    let rolls_hash = xor(blake(&ea), blake(&eb));
    let mut concat = Vec::new();
    concat.extend_from_slice(&blake(&[5]));
    concat.extend_from_slice(&blake(&[0]));
    concat.extend_from_slice(&blake(&[0]));
    concat.extend_from_slice(&rolls_hash);
    concat.extend_from_slice(&[0u8; 32]);
    assert_eq!(c.roll_counts_hash.to_bytes(), rolls_hash);
    assert_eq!(c.production_stats_hash.to_bytes(), [0u8; 32]);
    assert_eq!(c.cycle_global_hash.to_bytes(), blake(&concat));
    assert_eq!(d.cycle_global_hash.to_bytes(), blake(&concat));
}

#[test]
fn exact_layout_of_small_cycle() {
    let a = addr(true, 3);
    let c = CycleInfo::new_with_hash(
        300,
        true,
        vec![(a, 1)],
        vec![true, true],
        vec![(a, ProductionStats { block_success_count: 2, block_failure_count: 128 })],
    );
    let mut expected = vec![0xac, 0x02, 1, 1];
    expected.extend(addr_bytes(&a));
    expected.extend([1, 2, 0b11, 1]);
    expected.extend(addr_bytes(&a));
    expected.extend([2, 0x80, 0x01, 0]);
    assert_eq!(encode(&c), expected);
}

#[test]
fn round_trip_full_cycle() {
    let c = sample();
    let mut bytes = encode(&c);
    let len = bytes.len();
    bytes.extend([9, 9, 9]);
    let (d, n) = CycleInfoDeserializer::new(2, 2).deserialize(&bytes).unwrap();
    assert_eq!(n, len);
    assert_eq!(d, c);
}

#[test]
fn order_independent_hashes() {
    let s1 = ProductionStats { block_success_count: 1, block_failure_count: 2 };
    let s2 = ProductionStats { block_success_count: 3, block_failure_count: 4 };
    let mut r1 = Vec::new();
    insert_sorted_entry(&mut r1, addr(false, 1), 5);
    insert_sorted_entry(&mut r1, addr(false, 2), 6);
    insert_sorted_entry(&mut r1, addr(true, 3), 7);
    let mut r2 = Vec::new();
    insert_sorted_entry(&mut r2, addr(true, 3), 7);
    insert_sorted_entry(&mut r2, addr(false, 2), 6);
    insert_sorted_entry(&mut r2, addr(false, 1), 5);
    assert_eq!(r1, r2);
    let x = CycleInfo::new_with_hash(
        1,
        false,
        r1,
        vec![true],
        vec![(addr(false, 1), s1), (addr(false, 2), s2)],
    );
    let y = CycleInfo::new_with_hash(
        1,
        false,
        r2,
        vec![true],
        vec![(addr(false, 2), s2), (addr(false, 1), s1)],
    );
    assert_eq!(x.roll_counts_hash, y.roll_counts_hash);
    assert_eq!(x.production_stats_hash, y.production_stats_hash);
    assert_eq!(x.cycle_global_hash, y.cycle_global_hash);
}

#[test]
fn same_cycle_twice_same_hashes() {
    let x = sample();
    let y = sample();
    assert_eq!(encode(&x), encode(&y));
    assert_eq!(x.roll_counts_hash, y.roll_counts_hash);
    assert_eq!(x.production_stats_hash, y.production_stats_hash);
    assert_eq!(x.cycle_global_hash, y.cycle_global_hash);
}

#[test]
fn remove_then_readd_keeps_hash_and_change_alters_it() {
    let rolls = vec![(addr(false, 1), 5), (addr(false, 2), 6), (addr(false, 3), 7)];
    let x = CycleInfo::new_with_hash(2, true, rolls.clone(), vec![], vec![]);
    let mut moved = rolls.clone();
    let e = moved.remove(1);
    let without = CycleInfo::new_with_hash(2, true, moved.clone(), vec![], vec![]);
    assert_ne!(without.roll_counts_hash, x.roll_counts_hash);
    insert_sorted_entry(&mut moved, e.0, e.1);
    assert_eq!(moved, rolls);
    let y = CycleInfo::new_with_hash(2, true, moved, vec![], vec![]);
    assert_eq!(x.roll_counts_hash, y.roll_counts_hash);
    for i in 0..rolls.len() {
        let mut changed = rolls.clone();
        changed[i].1 += 1;
        let z = CycleInfo::new_with_hash(2, true, changed, vec![], vec![]);
        assert_ne!(z.roll_counts_hash, x.roll_counts_hash);
        assert_ne!(z.cycle_global_hash, x.cycle_global_hash);
    }
}

#[test]
fn empty_cycle_has_zero_aggregates() {
    let c = CycleInfo::new_with_hash(0, false, vec![], vec![], vec![]);
    assert_eq!(c.roll_counts_hash.to_bytes(), [0u8; 32]);
    assert_eq!(c.production_stats_hash.to_bytes(), [0u8; 32]);
    assert_eq!(encode(&c), vec![0, 0, 0, 0, 0, 0]);
    assert!(c.final_state_hash_snapshot.is_none());
}

#[test]
fn roll_count_over_bound_is_refused() {
    let a = addr(false, 1);
    let b = addr(false, 2);
    let c = CycleInfo::new_with_hash(5, false, vec![(a, 1), (b, 2)], vec![], vec![]);
    let bytes = encode(&c);
    assert_eq!(
        CycleInfoDeserializer::new(1, 10).deserialize(&bytes),
        Err(DecodeError::RollCounts)
    );
    assert!(CycleInfoDeserializer::new(2, 10).deserialize(&bytes).is_ok());
}

#[test]
fn huge_declared_length_in_short_buffer_is_refused() {
    let buf = vec![5u8, 0, 0xff, 0xff, 0xff, 0xff, 0xff, 0xff, 0xff, 0xff, 0xff, 0x01];
    assert_eq!(
        CycleInfoDeserializer::new(1000, 1000).deserialize(&buf),
        Err(DecodeError::RollCounts)
    );
    assert_eq!(
        CycleInfoDeserializer::new(u64::MAX, 1000).deserialize(&buf),
        Err(DecodeError::RollCounts)
    );
    let stats = vec![0xff, 0xff, 0xff, 0xff, 0x0f];
    assert_eq!(
        ProductionStatsDeserializer::new(10).deserialize(&stats),
        Err(DecodeError::ProductionStats)
    );
}

#[test]
fn production_stats_over_bound_is_refused() {
    let c = sample();
    let bytes = encode(&c);
    assert_eq!(
        CycleInfoDeserializer::new(2, 1).deserialize(&bytes),
        Err(DecodeError::ProductionStats)
    );
}

#[test]
fn errors_name_the_field() {
    assert_eq!(CycleInfoDeserializer::new(1, 1).deserialize(&[]), Err(DecodeError::Cycle));
    assert_eq!(
        CycleInfoDeserializer::new(1, 1).deserialize(&[0x80, 0x00, 0, 0, 0, 0, 0]),
        Err(DecodeError::Cycle)
    );
    assert_eq!(CycleInfoDeserializer::new(1, 1).deserialize(&[1]), Err(DecodeError::Complete));
    assert_eq!(
        CycleInfoDeserializer::new(1, 1).deserialize(&[1, 2, 0, 0, 0, 0]),
        Err(DecodeError::Complete)
    );
    assert_eq!(
        CycleInfoDeserializer::new(1, 1).deserialize(&[1, 1, 1, 0, 0]),
        Err(DecodeError::RollCounts)
    );
    assert_eq!(
        CycleInfoDeserializer::new(1, 1).deserialize(&[1, 1, 0, 9, 0]),
        Err(DecodeError::RngSeed)
    );
    assert_eq!(
        CycleInfoDeserializer::new(1, 1).deserialize(&[1, 1, 0, 0]),
        Err(DecodeError::ProductionStats)
    );
    assert_eq!(
        CycleInfoDeserializer::new(1, 1).deserialize(&[1, 1, 0, 0, 0]),
        Err(DecodeError::FinalStateHashSnapshot)
    );
    assert_eq!(
        CycleInfoDeserializer::new(1, 1).deserialize(&[1, 1, 0, 0, 0, 2]),
        Err(DecodeError::FinalStateHashSnapshot)
    );
    assert_eq!(
        CycleInfoDeserializer::new(1, 1).deserialize(&[1, 1, 0, 0, 0, 1, 7]),
        Err(DecodeError::FinalStateHashSnapshot)
    );
}

#[test]
fn bad_address_is_refused() {
    let mut buf = vec![1u8, 1, 1, 2, 0];
    buf.extend([0u8; 32]);
    buf.push(4);
    assert_eq!(
        CycleInfoDeserializer::new(1, 1).deserialize(&buf),
        Err(DecodeError::RollCounts)
    );
    assert_eq!(RollsDeserializer::new(1).deserialize(&buf[2..]), Err(DecodeError::RollCounts));
    buf[3] = 1;
    let (v, n) = RollsDeserializer::new(1).deserialize(&buf[2..]).unwrap();
    assert_eq!(n, 36);
    assert_eq!(v, vec![(addr(true, 0), 4)]);
}

#[test]
fn later_duplicate_entry_overrides() {
    let a = addr(false, 1);
    let b = addr(false, 2);
    let mut buf = vec![3u8, 0, 3];
    buf.extend(addr_bytes(&a));
    buf.push(1);
    buf.extend(addr_bytes(&b));
    buf.push(2);
    buf.extend(addr_bytes(&a));
    buf.push(3);
    buf.extend([0, 0, 0]);
    let (c, n) = CycleInfoDeserializer::new(3, 3).deserialize(&buf).unwrap();
    assert_eq!(n, buf.len());
    assert_eq!(c.roll_counts, vec![(a, 3), (b, 2)]);
    let expected = CycleInfo::new_with_hash(3, false, vec![(a, 3), (b, 2)], vec![], vec![]);
    assert_eq!(c, expected);
}

#[test]
fn seed_bits_are_packed_low_bit_first() {
    let c = CycleInfo::new_with_hash(
        0,
        false,
        vec![],
        vec![true, false, true, true, false, false, false, false, true],
        vec![],
    );
    let bytes = encode(&c);
    assert_eq!(bytes, vec![0, 0, 0, 9, 0b0000_1101, 0b1, 0, 0]);
    let (d, _) = CycleInfoDeserializer::new(0, 0).deserialize(&bytes).unwrap();
    assert_eq!(d.rng_seed, c.rng_seed);
    let mut dirty = bytes.clone();
    dirty[5] = 0b1111_1111;
    let (e, _) = CycleInfoDeserializer::new(0, 0).deserialize(&dirty).unwrap();
    assert_eq!(e.rng_seed, c.rng_seed);
}

#[test]
fn production_stats_codec_round_trip() {
    let stats = vec![
        (addr(false, 4), ProductionStats { block_success_count: 1, block_failure_count: 0 }),
        (addr(true, 5), ProductionStats { block_success_count: u64::MAX, block_failure_count: 3 }),
    ];
    let mut buf = Vec::new();
    ProductionStatsSerializer::new().serialize(&stats, &mut buf);
    assert_eq!(buf.len(), 1 + 2 * 34 + 1 + 1 + 10 + 1);
    let (v, n) = ProductionStatsDeserializer::new(2).deserialize(&buf).unwrap();
    assert_eq!(n, buf.len());
    assert_eq!(v, stats);
    assert_eq!(
        ProductionStatsDeserializer::new(1).deserialize(&buf),
        Err(DecodeError::ProductionStats)
    );
}

#[test]
fn history_round_trip_and_bound() {
    let mut h = VecDeque::new();
    h.push_back(sample());
    h.push_back(CycleInfo::new_with_hash(8, false, vec![], vec![false], vec![]));
    let mut buf = Vec::new();
    CycleHistorySerializer::new().serialize(&h, &mut buf);
    assert_eq!(buf[0], 2);
    let (v, n) = CycleHistoryDeserializer::new(2, 2, 2).deserialize(&buf).unwrap();
    assert_eq!(n, buf.len());
    assert_eq!(v, Vec::from(h.clone()));
    assert_eq!(
        CycleHistoryDeserializer::new(1, 2, 2).deserialize(&buf),
        Err(DecodeError::CycleHistoryLength)
    );
    assert_eq!(
        CycleHistoryDeserializer::new(2, 1, 2).deserialize(&buf),
        Err(DecodeError::RollCounts)
    );
    assert_eq!(CycleHistoryDeserializer::new(2, 2, 2).deserialize(&[]), Err(DecodeError::CycleHistoryLength));
    let (empty, n) = CycleHistoryDeserializer::new(0, 0, 0).deserialize(&[0]).unwrap();
    assert!(empty.is_empty());
    assert_eq!(n, 1);
}

#[test]
fn decoded_roll_counts_are_sorted() {
    let a = addr(false, 1);
    let b = addr(false, 2);
    let s = addr(true, 0);
    let mut buf = vec![4u8, 1, 3];
    buf.extend(addr_bytes(&s));
    buf.push(1);
    buf.extend(addr_bytes(&b));
    buf.push(2);
    buf.extend(addr_bytes(&a));
    buf.push(3);
    buf.extend([0, 0, 0]);
    let (c, n) = CycleInfoDeserializer::new(3, 3).deserialize(&buf).unwrap();
    assert_eq!(n, buf.len());
    assert_eq!(c.roll_counts, vec![(a, 3), (b, 2), (s, 1)]);
    assert_eq!(encode(&c)[3..3 + 34], addr_bytes(&a)[..]);
}

#[test]
fn address_order() {
    assert!(address_lt(&addr(false, 9), &addr(true, 0)));
    assert!(!address_lt(&addr(true, 0), &addr(false, 9)));
    assert!(address_lt(&addr(false, 1), &addr(false, 2)));
    assert!(!address_lt(&addr(false, 2), &addr(false, 2)));
    let mut x = [5u8; 32];
    x[31] = 6;
    let hi = Address { is_sc: false, hash: hash::Hash::from_bytes(&x) };
    assert!(address_lt(&addr(false, 5), &hi));
}

#[test]
fn default_serializers_encode_like_new() {
    let c = sample();
    let mut a = Vec::new();
    CycleInfoSerializer::default().serialize(&c, &mut a);
    assert_eq!(a, encode(&c));
    let mut h = VecDeque::new();
    h.push_back(c.clone());
    let mut b = Vec::new();
    CycleHistorySerializer::default().serialize(&h, &mut b);
    let mut expected = vec![1u8];
    expected.extend(encode(&c));
    assert_eq!(b, expected);
    let mut s1 = Vec::new();
    ProductionStatsSerializer::default().serialize(&c.production_stats, &mut s1);
    let mut s2 = Vec::new();
    ProductionStatsSerializer::new().serialize(&c.production_stats, &mut s2);
    assert_eq!(s1, s2);
}

#[test]
fn production_stats_duplicates_keep_last() {
    let a = addr(false, 1);
    let b = addr(true, 2);
    let mut buf = vec![3u8];
    buf.extend(addr_bytes(&a));
    buf.extend([1, 2]);
    buf.extend(addr_bytes(&b));
    buf.extend([3, 4]);
    buf.extend(addr_bytes(&a));
    buf.extend([5, 6]);
    let (v, n) = ProductionStatsDeserializer::new(3).deserialize(&buf).unwrap();
    assert_eq!(n, buf.len());
    assert_eq!(
        v,
        vec![
            (a, ProductionStats { block_success_count: 5, block_failure_count: 6 }),
            (b, ProductionStats { block_success_count: 3, block_failure_count: 4 }),
        ]
    );
    assert_eq!(
        ProductionStatsDeserializer::new(2).deserialize(&buf),
        Err(DecodeError::ProductionStats)
    );
}
