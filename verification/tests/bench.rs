use intpack_bench::bench::{encode_all, leapfrog_count, naive_intersect_count, Arena};
use intpack_bench::codec::bp128::Bp128;
use intpack_bench::codec::raw::Raw;
use intpack_bench::codec::{all, prepare, Codec};
use intpack_bench::stream::Kind;
use intpack_bench::timer::cycles_available;

#[test]
fn naive_merge_counts_shared_values() {
    assert_eq!(naive_intersect_count(&[1, 3, 5, 7], &[3, 4, 5, 8]), 2);
    assert_eq!(naive_intersect_count(&[], &[1, 2]), 0);
    assert_eq!(naive_intersect_count(&[1, 2, 3], &[1, 2, 3]), 3);
    assert_eq!(naive_intersect_count(&[10, 20], &[1, 2, 3]), 0);
}

#[test]
fn leapfrog_matches_the_naive_merge_for_every_seekable_codec() {
    let short: Vec<u32> = (0..200).map(|i| i * 37 + 5).collect();
    let long: Vec<u32> = (0..5000).map(|i| i * 3 + 2).collect();
    let universe = 20_000;
    let want = naive_intersect_count(&short, &long);
    assert!(want > 0);
    for codec in all() {
        if !codec.caps().seek {
            continue;
        }
        let mut a_buf = Vec::new();
        codec.encode(Kind::Sorted, universe, &short, &mut a_buf);
        let mut b_buf = Vec::new();
        codec.encode(Kind::Sorted, universe, &long, &mut b_buf);
        let pa = prepare(codec.as_ref(), Kind::Sorted, universe, short.len(), &a_buf).unwrap();
        let pb = prepare(codec.as_ref(), Kind::Sorted, universe, long.len(), &b_buf).unwrap();
        let (Some(mut a), Some(mut b)) = (pa.cursor(), pb.cursor()) else {
            panic!("{}: no cursor", codec.name());
        };
        assert_eq!(leapfrog_count(&mut *a, &mut *b), want, "{}", codec.name());
    }
}

#[test]
fn leapfrog_on_disjoint_and_empty_lists() {
    let a = vec![1u32, 3, 5];
    let b = vec![2u32, 4, 6];
    let mut ab = Vec::new();
    Raw.encode(Kind::Sorted, 10, &a, &mut ab);
    let mut bb = Vec::new();
    Raw.encode(Kind::Sorted, 10, &b, &mut bb);
    let pa = prepare(&Raw, Kind::Sorted, 10, 3, &ab).unwrap();
    let pb = prepare(&Raw, Kind::Sorted, 10, 3, &bb).unwrap();
    let mut ca = pa.cursor().unwrap();
    let mut cb = pb.cursor().unwrap();
    assert_eq!(leapfrog_count(&mut *ca, &mut *cb), 0);

    let pe = prepare(&Raw, Kind::Sorted, 10, 0, &[]).unwrap();
    let mut ce = pe.cursor().unwrap();
    let mut cb = pb.cursor().unwrap();
    assert_eq!(leapfrog_count(&mut *ce, &mut *cb), 0);
}

#[test]
fn arena_holds_each_encoding_back_to_back() {
    let lists = vec![vec![1u32, 2, 3], vec![], (0..300).collect::<Vec<u32>>()];
    let mut arena = Arena { bytes: vec![9, 9], spans: vec![(5, 5)] };
    encode_all(&Bp128, Kind::Sorted, 1000, &lists, &mut arena);
    assert_eq!(arena.spans.len(), 3);
    let mut off = 0;
    for (list, &(o, n)) in lists.iter().zip(&arena.spans) {
        assert_eq!(o, off);
        let mut one = Vec::new();
        Bp128.encode(Kind::Sorted, 1000, list, &mut one);
        assert_eq!(&arena.bytes[o..o + n], &one[..]);
        off += n;
    }
    assert_eq!(off, arena.bytes.len());
}

#[test]
fn cycle_counter_probe_answers() {
    // Whether the machine grants a counter varies; the probe must not fail.
    let first = cycles_available();
    let second = cycles_available();
    assert_eq!(first, second);
}
