use intpack_bench::codec::bp128::Bp128;
use intpack_bench::codec::bp128skip::Bp128Skip;
use intpack_bench::codec::eliasfano::{total_index_bytes, EliasFanoCodec};
use intpack_bench::codec::roaring_bitmap::Roaring;
use intpack_bench::codec::fastpfor::FastPFor;
use intpack_bench::codec::lucene::{for_delta, for_util, pfor};
use intpack_bench::codec::lucene::BLOCK_SIZE;
use intpack_bench::codec::lucene_pfor::LucenePFor;
use intpack_bench::codec::raw::Raw;
use intpack_bench::codec::streamvbyte::StreamVByte;
use intpack_bench::codec::vbyte::VByte;
use intpack_bench::codec::{all, by_name, check, conformance, prepare, Codec, CODEC_COUNT};
use intpack_bench::stream::Kind;
use sucds::bit_vectors::DArray;
use sucds::Serializable;

#[test]
fn raw_conformance() {
    assert!(conformance(&Raw).is_ok());
}

#[test]
fn vbyte_conformance() {
    assert!(conformance(&VByte).is_ok());
}

#[test]
fn bp128_conformance() {
    assert!(conformance(&Bp128).is_ok());
}

#[test]
fn fastpfor_conformance() {
    assert!(conformance(&FastPFor).is_ok());
}

#[test]
fn streamvbyte_conformance() {
    assert!(conformance(&StreamVByte).is_ok());
}

#[test]
fn lucene_pfor_conformance() {
    assert!(conformance(&LucenePFor).is_ok());
}

#[test]
fn sorted_block_is_pfor_of_deltas() {
    let list: Vec<u32> = (0..128).map(|i| i * 3 + 1).collect();
    let mut deltas = [0u32; BLOCK_SIZE];
    let mut prev = u32::MAX;
    for (i, &v) in list.iter().enumerate() {
        deltas[i] = v.wrapping_sub(prev);
        prev = v;
    }
    let mut expected = Vec::new();
    pfor::encode(&deltas, &mut expected);
    let mut got = Vec::new();
    LucenePFor.encode(Kind::Sorted, 1 << 20, &list, &mut got);
    assert_eq!(got, expected);
}

#[test]
fn full_block_round_trips_u32_values() {
    let raw: Vec<u32> =
        (0..BLOCK_SIZE).map(|i| if i.is_multiple_of(3) { u32::MAX - i as u32 } else { i as u32 }).collect();
    let mut bytes = Vec::new();
    LucenePFor.encode(Kind::Unsorted, u32::MAX, &raw, &mut bytes);
    assert_eq!(bytes[0], u8::MAX);
    assert_eq!(pfor::skip(&bytes), bytes.len());

    let mut patched = vec![0; BLOCK_SIZE];
    patched[57] = u32::MAX;
    let mut bytes = Vec::new();
    LucenePFor.encode(Kind::Unsorted, u32::MAX, &patched, &mut bytes);
    assert_ne!(bytes[0], u8::MAX);
    assert_eq!(pfor::skip(&bytes), bytes.len());

    for list in [&raw, &patched] {
        if let Err(e) = check(&LucenePFor, Kind::Unsorted, u32::MAX, list) {
            panic!("{e:?}");
        }
    }
}

#[test]
fn raw_get_and_cursor() {
    let list = vec![2u32, 3, 10, 1000];
    let mut buf = Vec::new();
    Raw.encode(Kind::Sorted, 2000, &list, &mut buf);
    assert_eq!(buf.len(), 16);
    assert_eq!(Raw.get(Kind::Sorted, 2000, 4, &buf, 2), Some(10));
    let p = prepare(&Raw, Kind::Sorted, 2000, 4, &buf).unwrap();
    let mut c = p.cursor().unwrap();
    assert_eq!(c.next_geq(4), Some(10));
    assert_eq!(c.next_geq(10), Some(10));
    assert_eq!(c.next(), Some(1000));
    assert_eq!(c.next(), None);
}

#[test]
fn vbyte_gap_bytes() {
    let mut buf = Vec::new();
    VByte.encode(Kind::Sorted, 1000, &[5, 6, 200], &mut buf);
    // 5, gap 0, then 200 - 6 - 1 = 193 as two bytes.
    assert_eq!(buf, vec![5, 0, 0xc1, 0x01]);
}

#[test]
fn bp128_cursor_walks_blocks_and_tail() {
    let list: Vec<u32> = (0..300).map(|i| i * 7 + 3).collect();
    let mut buf = Vec::new();
    Bp128.encode(Kind::Sorted, 1 << 20, &list, &mut buf);
    let mut c = Bp128.cursor(1 << 20, list.len(), &buf).unwrap();
    assert_eq!(c.next_geq(0), Some(3));
    assert_eq!(c.next_geq(7 * 200), Some(7 * 200 + 3));
    assert_eq!(c.next(), Some(7 * 201 + 3));
    assert_eq!(c.next_geq(7 * 299 + 3), Some(7 * 299 + 3));
    assert_eq!(c.next(), None);
}

#[test]
fn registry_finds_by_name() {
    assert_eq!(all().len(), 10);
    assert_eq!(by_name("lucene-pfor").map(|c| c.name()), Some("lucene-pfor"));
    assert_eq!(by_name("pef").map(|c| c.name()), Some("pef"));
    assert_eq!(by_name("bp128-skip").map(|c| c.name()), Some("bp128-skip"));
    assert_eq!(by_name("elias-fano").map(|c| c.name()), Some("elias-fano"));
    assert_eq!(by_name("roaring").map(|c| c.name()), Some("roaring"));
    assert_eq!(by_name("bp128").map(|c| c.name()), Some("bp128"));
    assert!(by_name("no-such-codec").is_none());
}

#[test]
fn eliasfano_conformance() {
    assert!(conformance(&EliasFanoCodec).is_ok());
}

#[test]
fn roaring_conformance() {
    assert!(conformance(&Roaring).is_ok());
}

#[test]
fn bp128skip_conformance() {
    assert!(conformance(&Bp128Skip).is_ok());
}

/// Encode a sorted list with the skip table.
fn encode_skip_sorted(list: &[u32]) -> Vec<u8> {
    let mut buf = Vec::new();
    Bp128Skip.encode(Kind::Sorted, 1 << 30, list, &mut buf);
    buf
}

#[test]
fn get_positions() {
    // 2 full blocks + a 44-value tail (n = 300).
    let list: Vec<u32> = (0..300).map(|i| i * 7 + 3).collect();
    let buf = encode_skip_sorted(&list);
    let get = |i| Bp128Skip.get(Kind::Sorted, 1 << 30, list.len(), &buf, i);
    assert_eq!(get(0), Some(list[0]));
    assert_eq!(get(127), Some(list[127]));
    assert_eq!(get(128), Some(list[128]));
    assert_eq!(get(255), Some(list[255])); // last full-block element
    assert_eq!(get(256), Some(list[256])); // first tail element
    assert_eq!(get(299), Some(list[299])); // last element
    assert_eq!(get(300), None);
}

#[test]
fn get_unsorted() {
    let list: Vec<u32> = (0..300u32).map(|i| i.wrapping_mul(2_654_435_761) % 1000).collect();
    let mut buf = Vec::new();
    Bp128Skip.encode(Kind::Unsorted, 1000, &list, &mut buf);
    for (i, &v) in list.iter().enumerate() {
        assert_eq!(Bp128Skip.get(Kind::Unsorted, 1000, list.len(), &buf, i), Some(v));
    }
    assert_eq!(Bp128Skip.get(Kind::Unsorted, 1000, list.len(), &buf, list.len()), None);
}

#[test]
fn short_list_is_byte_identical_to_bp128() {
    // A list under one block has an empty table.
    let list: Vec<u32> = (0..77).map(|i| i * 3 + 1).collect();
    let mut skip = Vec::new();
    Bp128Skip.encode(Kind::Sorted, 1 << 30, &list, &mut skip);
    let mut plain = Vec::new();
    Bp128.encode(Kind::Sorted, 1 << 30, &list, &mut plain);
    assert_eq!(skip, plain);
}

#[test]
fn skip_table_precedes_the_bp128_section() {
    // Two full blocks: the table has two (last, offset) entries of 8 bytes.
    let list: Vec<u32> = (0..300).map(|i| i * 7 + 3).collect();
    let skip = encode_skip_sorted(&list);
    let mut plain = Vec::new();
    Bp128.encode(Kind::Sorted, 1 << 30, &list, &mut plain);
    assert_eq!(skip.len(), plain.len() + 16);
    assert_eq!(&skip[16..], &plain[..]);
    assert_eq!(u32::from_le_bytes([skip[0], skip[1], skip[2], skip[3]]), list[127]);
    assert_eq!(u32::from_le_bytes([skip[4], skip[5], skip[6], skip[7]]), 0);
    assert_eq!(u32::from_le_bytes([skip[8], skip[9], skip[10], skip[11]]), list[255]);
    let second = u32::from_le_bytes([skip[12], skip[13], skip[14], skip[15]]) as usize;
    assert_eq!(second, 1 + 16 * plain[0] as usize);
    assert_eq!(Bp128Skip.aux_bytes(1 << 30, list.len(), &skip), Some(16));
}

#[test]
fn skip_cursor_jumps_into_a_far_block() {
    let list: Vec<u32> = (0..12800).map(|i| i * 100).collect();
    let buf = encode_skip_sorted(&list);
    let mut cur = Bp128Skip.cursor(1 << 30, list.len(), &buf).unwrap();
    // Block 90 holds indices 11520..11648, values 1_152_000..1_164_700.
    assert_eq!(cur.next_geq(1_152_005), Some(1_152_100));
    assert_eq!(cur.next_geq(1_160_000), Some(1_160_000));
    assert_eq!(cur.next(), Some(1_160_100));
}

#[test]
fn skip_cursor_enters_the_tail() {
    // 2 full blocks + a 60-value tail.
    let list: Vec<u32> = (0..256 + 60).map(|i| i * 7 + 1).collect();
    let buf = encode_skip_sorted(&list);
    let mut cur = Bp128Skip.cursor(1 << 30, list.len(), &buf).unwrap();
    assert_eq!(cur.next_geq(list[256]), Some(list[256]));
    assert_eq!(cur.next_geq(1 << 30), None);

    let mut cur = Bp128Skip.cursor(1 << 30, list.len(), &buf).unwrap();
    assert_eq!(cur.next_geq(list[100]), Some(list[100]));
    assert_eq!(cur.next_geq(list[270]), Some(list[270]));
    assert_eq!(cur.next_geq(list[315]), Some(list[315]));
    assert_eq!(cur.next_geq(1 << 30), None);
}

#[test]
fn roaring_get_and_seek() {
    let list = vec![1u32, 5, 70_000, 70_001, 4_000_000];
    let mut buf = Vec::new();
    Roaring.encode(Kind::Sorted, 1 << 23, &list, &mut buf);
    let p = prepare(&Roaring, Kind::Sorted, 1 << 23, list.len(), &buf).unwrap();
    assert_eq!(p.get(2), Some(70_000));
    assert_eq!(p.get(5), None);
    let mut c = p.cursor().unwrap();
    assert_eq!(c.next_geq(6), Some(70_000));
    assert_eq!(c.next(), Some(70_001));
    assert_eq!(c.next_geq(70_001), Some(70_001));
    assert_eq!(c.next_geq(4_000_001), None);
}

#[test]
fn eliasfano_get_and_seek() {
    let list = vec![3u32, 9, 10, 500, 100_000];
    let mut buf = Vec::new();
    EliasFanoCodec.encode(Kind::Sorted, 100_001, &list, &mut buf);
    let p = prepare(&EliasFanoCodec, Kind::Sorted, 100_001, list.len(), &buf).unwrap();
    assert_eq!(p.get(3), Some(500));
    assert_eq!(p.get(5), None);
    let mut c = p.cursor().unwrap();
    assert_eq!(c.next_geq(10), Some(10));
    assert_eq!(c.next(), Some(500));
    assert_eq!(c.next_geq(600), Some(100_000));
    assert_eq!(c.next_geq(100_001), None);
    // Exhausted: a smaller target finds nothing either.
    assert_eq!(c.next_geq(0), None);
}

#[test]
fn pfor_decode_takes_exactly_the_block() {
    let blocks: Vec<Vec<u32>> = vec![
        vec![7; BLOCK_SIZE],
        (0..BLOCK_SIZE as u32).map(|i| i % 5).collect(),
        (0..BLOCK_SIZE as u32).map(|i| if i == 9 { 1 << 20 } else { i % 3 }).collect(),
        (0..BLOCK_SIZE as u32).map(|i| u32::MAX - i).collect(),
    ];
    for block in blocks {
        let mut ints = [0u32; BLOCK_SIZE];
        ints.copy_from_slice(&block);
        let mut bytes = Vec::new();
        pfor::encode(&ints, &mut bytes);
        bytes.extend_from_slice(&[0xAB; 9]);
        let mut out = [0u32; BLOCK_SIZE];
        let consumed = pfor::decode(&bytes, &mut out);
        assert_eq!(consumed, bytes.len() - 9);
        assert_eq!(consumed, pfor::skip(&bytes));
        assert_eq!(out.to_vec(), block);
    }
}

#[test]
fn lucene_pfor_tail_is_plain_vints() {
    let mut out = Vec::new();
    LucenePFor.encode(Kind::Unsorted, 1000, &[1, 300, 5], &mut out);
    assert_eq!(out, vec![1, 0xac, 0x02, 5]);
    let mut sorted = vec![9u8];
    LucenePFor.encode(Kind::Sorted, 1000, &[3, 10], &mut sorted);
    // The first delta is taken from Lucene's -1.
    assert_eq!(sorted, vec![9, 4, 7]);
}

#[test]
fn lucene_pfor_block_comes_before_the_tail() {
    let list: Vec<u32> = (0..130u32).map(|i| i * 3).collect();
    let mut out = Vec::new();
    LucenePFor.encode(Kind::Unsorted, 1 << 20, &list, &mut out);
    let n = out.len();
    // One packed block of at least one byte, then vint(384) and vint(387).
    assert!(n >= 1 + 4);
    assert_eq!(&out[n - 4..], &[0x80, 0x03, 0x83, 0x03]);
}

#[test]
fn registry_lists_codecs_in_report_order() {
    let names: Vec<&str> = all().iter().map(|c| c.name()).collect();
    assert_eq!(
        names,
        vec![
            "raw-u32",
            "vbyte",
            "bp128",
            "bp128-skip",
            "fastpfor128",
            "lucene-pfor",
            "streamvbyte",
            "roaring",
            "elias-fano",
            "pef"
        ]
    );
    assert_eq!(names.len(), CODEC_COUNT);
    for name in &names {
        assert_eq!(by_name(name).map(|c| c.name()), Some(*name));
    }
    assert!(by_name("").is_none());
    assert!(by_name("raw").is_none());
}

#[test]
fn eliasfano_aux_bytes_reads_the_high_bits_indexes() {
    assert_eq!(EliasFanoCodec.aux_bytes(100, 0, &[]), None);
    let list: Vec<u32> = (0..1000u32).map(|i| i * 7).collect();
    let mut buf = Vec::new();
    EliasFanoCodec.encode(Kind::Sorted, 7000, &list, &mut buf);
    let high = DArray::deserialize_from(&buf[..]).unwrap();
    let expected = high.s1_index().size_in_bytes()
        + high.s0_index().map_or(0, |s0| s0.size_in_bytes());
    assert_eq!(EliasFanoCodec.aux_bytes(7000, list.len(), &buf), Some(expected));
}

#[test]
fn index_bytes_add_and_saturate() {
    assert_eq!(total_index_bytes(3, Some(4)), 7);
    assert_eq!(total_index_bytes(5, None), 5);
    assert_eq!(total_index_bytes(usize::MAX, Some(1)), usize::MAX);
}

#[test]
fn byte_width_blocks_spread_lanes() {
    let input: Vec<u8> = (0..128u32).map(|i| i as u8).collect();
    let mut out = [0u32; BLOCK_SIZE];
    for_util::decode(8, &input, &mut out);
    for i in 0..32usize {
        assert_eq!(out[i], input[4 * i + 3] as u32);
        assert_eq!(out[32 + i], input[4 * i + 2] as u32);
        assert_eq!(out[64 + i], input[4 * i + 1] as u32);
        assert_eq!(out[96 + i], input[4 * i] as u32);
    }
}

#[test]
fn full_width_blocks_are_raw_words() {
    let values: Vec<u32> = (0..128u32).map(|i| i.wrapping_mul(0x9e37_79b9)).collect();
    let mut input = Vec::new();
    for v in &values {
        input.extend_from_slice(&v.to_le_bytes());
    }
    let mut out = [0u32; BLOCK_SIZE];
    for_util::decode(32, &input, &mut out);
    assert_eq!(out.to_vec(), values);
}

#[test]
fn half_word_deltas_prefix_sum_from_base() {
    let mut input = vec![0u8; 256];
    input[0..4].copy_from_slice(&0x0002_0001u32.to_le_bytes());
    let mut out = [0u32; BLOCK_SIZE];
    for_delta::decode_and_prefix_sum(16, &input, 100, &mut out);
    for k in 0..64usize {
        assert_eq!(out[k], 102);
    }
    for k in 64..128usize {
        assert_eq!(out[k], 103);
    }
}

#[test]
fn half_word_lane_deltas_prefix_sum_across_halves() {
    // Width 8 packs the deltas in 16-bit lanes; every delta is one.
    let input = vec![1u8; 128];
    let mut out = [0u32; BLOCK_SIZE];
    for_delta::decode_and_prefix_sum(8, &input, 10, &mut out);
    let expected: Vec<u32> = (0..128u32).map(|k| 11 + k).collect();
    assert_eq!(out.to_vec(), expected);
}

#[test]
fn byte_lane_deltas_prefix_sum_per_quarter() {
    // Width 1 packs the deltas in byte lanes; all bits set makes every delta one.
    let input = vec![0xffu8; 16];
    let mut out = [0u32; BLOCK_SIZE];
    for_delta::decode_and_prefix_sum(1, &input, 1000, &mut out);
    let expected: Vec<u32> = (0..128u32).map(|k| 1001 + k).collect();
    assert_eq!(out.to_vec(), expected);
}

fn running_sums(values: &[u32], base: u32) -> Vec<u32> {
    let mut sum = base;
    values
        .iter()
        .map(|v| {
            sum = sum.wrapping_add(*v);
            sum
        })
        .collect()
}

#[test]
fn byte_width_prefix_sum_is_running_sum_of_decoded() {
    let input: Vec<u8> = (0..48u32).map(|i| (i.wrapping_mul(97) ^ 0x5a) as u8).collect();
    let mut values = [0u32; BLOCK_SIZE];
    for_util::decode(3, &input, &mut values);
    assert!(values.iter().all(|v| *v < 8));
    let mut out = [0u32; BLOCK_SIZE];
    for_delta::decode_and_prefix_sum(3, &input, 77, &mut out);
    assert_eq!(out.to_vec(), running_sums(&values, 77));
}

#[test]
fn half_word_width_prefix_sum_is_running_sum_of_decoded() {
    let input: Vec<u8> = (0..144u32).map(|i| (i.wrapping_mul(131) ^ 0xa5) as u8).collect();
    let mut values = [0u32; BLOCK_SIZE];
    for_util::decode(9, &input, &mut values);
    assert!(values.iter().all(|v| *v < 512));
    let mut out = [0u32; BLOCK_SIZE];
    for_delta::decode_and_prefix_sum(9, &input, u32::MAX - 5, &mut out);
    assert_eq!(out.to_vec(), running_sums(&values, u32::MAX - 5));
}

#[test]
fn owning_codecs_seek_through_prepare() {
    let list: Vec<u32> = (0..500u32).map(|i| i * 5).collect();
    for codec in [&Roaring as &dyn Codec, &EliasFanoCodec as &dyn Codec] {
        assert!(codec.caps().seek && codec.caps().random_access);
        let mut buf = Vec::new();
        codec.encode(Kind::Sorted, 3000, &list, &mut buf);
        assert!(codec.cursor(3000, list.len(), &buf).is_none());
        let p = prepare(codec, Kind::Sorted, 3000, list.len(), &buf).unwrap();
        let mut cur = p.cursor().unwrap();
        assert_eq!(cur.next_geq(11), Some(15));
        assert_eq!(p.get(7), Some(35));
    }
}

#[test]
fn all_equal_block_is_token_and_vint() {
    let ints = [5u32; BLOCK_SIZE];
    let mut out = Vec::new();
    pfor::encode(&ints, &mut out);
    assert_eq!(out, vec![0x00, 0x05]);
    let mut back = [0u32; BLOCK_SIZE];
    assert_eq!(pfor::decode(&out, &mut back), 2);
    assert_eq!(back, ints);
    assert_eq!(pfor::skip(&out), 2);
}

#[test]
fn pfor_exceptions_patch_the_high_bits() {
    // Token: one exception, width 1; 16 packed bytes of zeros; then index 3
    // with high byte 2, giving 2 << 1 at position 3.
    let mut buf = vec![(1u8 << 5) | 1];
    buf.extend_from_slice(&[0u8; 16]);
    buf.extend_from_slice(&[3, 2]);
    let mut out = [9u32; BLOCK_SIZE];
    assert_eq!(pfor::decode(&buf, &mut out), 19);
    let mut expected = [0u32; BLOCK_SIZE];
    expected[3] = 4;
    assert_eq!(out, expected);
}

#[test]
fn bytes_after_the_block_are_ignored() {
    let input: Vec<u8> = (0..512u32).map(|i| (i * 37 % 251) as u8).collect();
    for bpv in [1u32, 5, 8, 12, 16, 20, 32] {
        let n = 16 * bpv as usize;
        let mut a = [0u32; BLOCK_SIZE];
        let mut b = [0u32; BLOCK_SIZE];
        for_util::decode(bpv, &input[..n], &mut a);
        for_util::decode(bpv, &input, &mut b);
        assert_eq!(a, b, "width {bpv}");
    }
}

#[test]
fn raw_pfor_block_reads_back_before_trailing_bytes() {
    let mut ints = [0u32; BLOCK_SIZE];
    for (i, v) in ints.iter_mut().enumerate() {
        *v = if i % 3 == 0 { u32::MAX - i as u32 } else { i as u32 };
    }
    let mut bytes = Vec::new();
    pfor::encode(&ints, &mut bytes);
    assert_eq!(bytes[0], pfor::RAW_TOKEN);
    assert_eq!(bytes.len(), 513);
    bytes.extend_from_slice(&[7, 7, 7]);
    let mut back = [1u32; BLOCK_SIZE];
    assert_eq!(pfor::decode(&bytes, &mut back), 513);
    assert_eq!(back, ints);
    assert_eq!(pfor::skip(&bytes), 513);
}

#[test]
fn all_equal_pfor_block_reads_back_before_trailing_bytes() {
    let ints = [200u32; BLOCK_SIZE];
    let mut bytes = Vec::new();
    pfor::encode(&ints, &mut bytes);
    assert_eq!(bytes, vec![0x00, 0xc8, 0x01]);
    bytes.extend_from_slice(&[0xff, 0xff]);
    let mut back = [0u32; BLOCK_SIZE];
    assert_eq!(pfor::decode(&bytes, &mut back), 3);
    assert_eq!(back, ints);
    assert_eq!(pfor::skip(&bytes), 3);
}

#[test]
fn byte_width_block_is_four_lanes_per_word() {
    let mut ints = [0u32; BLOCK_SIZE];
    for (i, v) in ints.iter_mut().enumerate() {
        *v = i as u32;
    }
    let mut bytes = Vec::new();
    for_util::encode(&ints, 8, &mut bytes);
    assert_eq!(bytes.len(), 128);
    assert_eq!(&bytes[0..4], &[96, 64, 32, 0]);
    assert_eq!(&bytes[4..8], &[97, 65, 33, 1]);
    let mut back = [0u32; BLOCK_SIZE];
    for_util::decode(8, &bytes, &mut back);
    assert_eq!(back, ints);
}

#[test]
fn wide_block_stitches_the_tail_back() {
    for bpv in 17u32..32 {
        let mut ints = [0u32; BLOCK_SIZE];
        for (i, v) in ints.iter_mut().enumerate() {
            *v = ((i as u32).wrapping_mul(2_654_435_761)) & ((1u32 << bpv) - 1);
        }
        let mut bytes = Vec::new();
        for_util::encode(&ints, bpv, &mut bytes);
        bytes.extend_from_slice(&[0xaa; 9]);
        let mut back = [0u32; BLOCK_SIZE];
        for_util::decode(bpv, &bytes, &mut back);
        assert_eq!(back, ints, "bpv {bpv}");
    }
}
