use std::collections::BTreeSet;

use intpack_bench::codec::pef::Pef;
use intpack_bench::codec::raw::Raw;
use intpack_bench::codec::{conformance, prepare, Codec};
use intpack_bench::stream::Kind;

fn encode(list: &[u32], universe: u32) -> Vec<u8> {
    let mut encoded = Vec::new();
    Pef.encode(Kind::Sorted, universe, list, &mut encoded);
    encoded
}

fn roundtrip(list: &[u32], universe: u32) {
    let encoded = encode(list, universe);
    let mut decoded = Vec::new();
    Pef.decode(Kind::Sorted, universe, list.len(), &encoded, &mut decoded);
    assert_eq!(decoded, list);
    for (index, &value) in list.iter().enumerate() {
        assert_eq!(Pef.get(Kind::Sorted, universe, list.len(), &encoded, index), Some(value));
    }
    assert_eq!(Pef.get(Kind::Sorted, universe, list.len(), &encoded, list.len()), None);
}

fn ceil8(bits: usize) -> usize {
    bits.div_ceil(8)
}

/// The two-bit partition types, read from where the format puts them.
fn partition_types(list_len: usize, universe: u32, encoded: &[u8]) -> BTreeSet<u8> {
    let partitions = list_len.div_ceil(128);
    let upper_l = encoded[0] as usize;
    let high_bits = partitions + ((universe as u64) >> upper_l) as usize;
    let type_start = 2 + ceil8(partitions * upper_l) + ceil8(high_bits);
    (0..partitions).map(|index| (encoded[type_start + index / 4] >> ((index % 4) * 2)) & 3).collect()
}

#[test]
fn pef_conformance() {
    assert!(conformance(&Pef).is_ok());
}

#[test]
fn all_partition_types_roundtrip_and_seek_like_raw() {
    let mut list: Vec<u32> = (0..=300).collect();
    list.extend((0..400).map(|index| 302 + index * 2));
    let sparse_start = list[list.len() - 1] + 10_000;
    list.extend((0..300).map(|index| sparse_start + index * 10_000));
    let universe = list[list.len() - 1] + 1;
    let encoded = encode(&list, universe);
    assert_eq!(partition_types(list.len(), universe, &encoded), BTreeSet::from([0, 1, 2]));
    roundtrip(&list, universe);

    let mut raw_bytes = Vec::new();
    Raw.encode(Kind::Sorted, universe, &list, &mut raw_bytes);
    let raw = prepare(&Raw, Kind::Sorted, universe, list.len(), &raw_bytes).unwrap();
    let pef = prepare(&Pef, Kind::Sorted, universe, list.len(), &encoded).unwrap();
    let Some(mut raw_cursor) = raw.cursor() else { panic!("raw cursor unavailable") };
    let Some(mut pef_cursor) = pef.cursor() else { panic!("PEF cursor unavailable") };
    let mut targets = Vec::with_capacity(list.len() * 2);
    for window in list.windows(2) {
        targets.push(window[0]);
        if window[1] - window[0] > 1 {
            targets.push(window[0] + (window[1] - window[0]) / 2);
        }
    }
    targets.push(list[list.len() - 1]);
    for target in targets {
        assert_eq!(pef_cursor.next_geq(target), raw_cursor.next_geq(target), "target {target}");
    }
}

#[test]
fn seek_jumps_directly_to_partition() {
    let list: Vec<u32> = (0..128_000).map(|value| value * 10).collect();
    let universe = list[list.len() - 1] + 1;
    let encoded = encode(&list, universe);
    let Some(mut cursor) = Pef.cursor(universe, list.len(), &encoded) else { panic!("PEF cursor unavailable") };
    assert_eq!(cursor.next(), Some(0));
    assert_eq!(cursor.next_geq(list[900 * 128]), Some(list[900 * 128]));
}

#[test]
fn dense_and_boundary_lengths() {
    for n in [1, 128, 129, 100_000] {
        let list: Vec<u32> = (0..n as u32).collect();
        let encoded = encode(&list, n as u32);
        roundtrip(&list, n as u32);
        if n == 100_000 {
            assert!(encoded.len() as f64 * 8.0 / (n as f64) < 0.1);
        }
    }
}

#[test]
fn pef_dense_list_bytes() {
    // One all-ones partition: upper low width 1, the maximum 2 has low bit
    // 0 and its high bit at position 1; type 0; no payload, no offsets.
    assert_eq!(encode(&[0, 1, 2], 3), vec![1, 0, 0, 2, 0]);
}

#[test]
fn pef_empty_list_encodes_nothing() {
    assert!(encode(&[], 10).is_empty());
    let Some(mut cursor) = Pef.cursor(10, 0, &[]) else { panic!("PEF cursor unavailable") };
    assert_eq!(cursor.next(), None);
    assert_eq!(cursor.next_geq(0), None);
}

#[test]
fn pef_cursor_walks_across_partitions() {
    let list: Vec<u32> = (0..300).map(|i| i * 7 + 3).collect();
    let universe = 1 << 20;
    let encoded = encode(&list, universe);
    let Some(mut cursor) = Pef.cursor(universe, list.len(), &encoded) else { panic!("PEF cursor unavailable") };
    for &value in &list {
        assert_eq!(cursor.next(), Some(value));
    }
    assert_eq!(cursor.next(), None);
    assert_eq!(cursor.next(), None);
    let Some(mut seek) = Pef.cursor(universe, list.len(), &encoded) else { panic!("PEF cursor unavailable") };
    assert_eq!(seek.next_geq(7 * 127 + 4), Some(7 * 128 + 3));
    assert_eq!(seek.next_geq(7 * 128 + 3), Some(7 * 128 + 3));
    assert_eq!(seek.next(), Some(7 * 129 + 3));
    assert_eq!(seek.next_geq(7 * 299 + 3), Some(7 * 299 + 3));
    assert_eq!(seek.next_geq(universe), None);
    assert_eq!(seek.next(), None);
}

#[test]
fn pef_sparse_partitions_use_elias_fano() {
    let list: Vec<u32> = (0..200).map(|i| i * 1_000_003).collect();
    let universe = u32::MAX;
    let encoded = encode(&list, universe);
    assert_eq!(partition_types(list.len(), universe, &encoded), BTreeSet::from([2]));
    roundtrip(&list, universe);
}
