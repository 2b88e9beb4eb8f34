use massa_pos_exports::hash;
use massa_pos_exports::stats::{ProductionStats, Ratio};
use massa_pos_exports::varint::{read_varint, write_varint};

fn stats(s: u64, f: u64) -> ProductionStats {
    ProductionStats { block_success_count: s, block_failure_count: f }
}

#[test]
fn extend_saturates_at_max() {
    let mut a = stats(u64::MAX, u64::MAX - 1);
    a.extend(&stats(1, 5));
    assert_eq!(a, stats(u64::MAX, u64::MAX));
}

#[test]
fn extend_adds_counters() {
    let mut a = stats(3, 4);
    a.extend(&stats(10, 20));
    assert_eq!(a, stats(13, 24));
}

#[test]
fn no_opportunity_is_satisfying() {
    assert!(stats(0, 0).is_satisfying(&Ratio::new(0, 1)));
}

#[test]
fn too_many_misses_is_not_satisfying() {
    assert!(!stats(1, 9).is_satisfying(&Ratio::new(1, 2)));
}

#[test]
fn few_misses_is_satisfying() {
    assert!(stats(9, 1).is_satisfying(&Ratio::new(1, 2)));
}

#[test]
fn ratio_boundary_is_satisfying() {
    assert!(stats(1, 1).is_satisfying(&Ratio::new(1, 2)));
    assert!(!stats(2, 3).is_satisfying(&Ratio::new(1, 2)));
    assert!(stats(u64::MAX, u64::MAX).is_satisfying(&Ratio::new(1, 2)));
    assert!(!stats(u64::MAX - 1, u64::MAX).is_satisfying(&Ratio::new(1, 2)));
}

#[test]
fn varint_encodings() {
    let cases: Vec<(u64, Vec<u8>)> = vec![
        (0, vec![0]),
        (127, vec![0x7f]),
        (128, vec![0x80, 0x01]),
        (300, vec![0xac, 0x02]),
        (u64::MAX, vec![0xff, 0xff, 0xff, 0xff, 0xff, 0xff, 0xff, 0xff, 0xff, 0x01]),
    ];
    for (x, enc) in cases {
        let mut buf = vec![7u8];
        write_varint(x, &mut buf);
        assert_eq!(buf[1..], enc[..]);
        assert_eq!(read_varint(&buf, 1), Some((x, enc.len())));
    }
}

#[test]
fn varint_rejects_bad_input() {
    assert_eq!(read_varint(&[], 0), None);
    assert_eq!(read_varint(&[0x80], 0), None);
    assert_eq!(read_varint(&[0x80, 0x00], 0), None);
    assert_eq!(read_varint(&[0xff, 0xff, 0xff, 0xff, 0xff, 0xff, 0xff, 0xff, 0xff, 0x02], 0), None);
    assert_eq!(
        read_varint(&[0xff, 0xff, 0xff, 0xff, 0xff, 0xff, 0xff, 0xff, 0xff, 0x80, 0x01], 0),
        None
    );
    assert_eq!(read_varint(&[0x81, 0x00, 0x05], 0), None);
}

#[test]
fn hash_is_blake3_of_input() {
    let data = vec![1u8, 2, 3];
    let h = hash::Hash::compute_from(&data);
    assert_eq!(h.to_bytes(), *blake3::hash(&data).as_bytes());
    assert_ne!(h.to_bytes(), [0u8; 32]);
}

#[test]
fn hash_xor_cancels() {
    let a = hash::Hash::from_bytes(&[0x5a; 32]);
    let b = hash::Hash::compute_from(&vec![9u8]);
    assert_eq!(a.xor(&b).xor(&b), a);
    assert_eq!(hash::Hash::zero().xor(&a), a);
}
