use intpack_bench::synth::{bits_universe, force_len, periodic_list, uniform_bits_list};
use rand::rngs::StdRng;
use rand::SeedableRng;

#[test]
fn periodic_without_jitter_is_the_grid() {
    let mut rng = StdRng::seed_from_u64(3);
    let l = periodic_list(&mut rng, 10_000, 10, 0);
    assert_eq!(l.len(), 1000);
    assert_eq!(l.first().copied(), Some(0));
    assert!(l.windows(2).all(|w| w[1] == w[0] + 10));
    let mut rng = StdRng::seed_from_u64(3);
    assert_eq!(periodic_list(&mut rng, 25, 0, 0), (0..25).collect::<Vec<u32>>());
}

#[test]
fn periodic_with_jitter_stays_increasing_and_near_the_grid() {
    let mut rng = StdRng::seed_from_u64(3);
    let l = periodic_list(&mut rng, 10_000, 10, 3);
    assert!(l.windows(2).all(|w| w[0] < w[1]));
    assert!(l.iter().all(|&v| v < 10_000));
    assert!(l.iter().all(|&v| {
        let k = (v + 5) / 10;
        (k * 10).abs_diff(v) <= 3
    }));
    assert!(l.len() as f64 / 10_000.0 > 0.05);
    let mut again = StdRng::seed_from_u64(3);
    assert_eq!(periodic_list(&mut again, 10_000, 10, 3), l);
}

#[test]
fn uniform_bits_stay_below_the_universe() {
    assert_eq!(bits_universe(0), 1);
    assert_eq!(bits_universe(12), 4096);
    assert_eq!(bits_universe(31), 1 << 31);
    assert_eq!(bits_universe(32), u32::MAX);
    assert_eq!(bits_universe(40), u32::MAX);
    let mut rng = StdRng::seed_from_u64(6);
    let l = uniform_bits_list(&mut rng, 10_000, bits_universe(12));
    assert_eq!(l.len(), 10_000);
    assert!(l.iter().all(|&v| v < 1 << 12));
    assert!(uniform_bits_list(&mut rng, 10, 0).is_empty());
}

#[test]
fn force_len_cuts_or_fills_to_the_exact_length() {
    let mut rng = StdRng::seed_from_u64(4);
    let mut long = vec![1u32, 5, 9, 12];
    force_len(&mut rng, 100, &mut long, 2);
    assert_eq!(long, vec![1, 5]);

    let mut same = vec![3u32, 4];
    force_len(&mut rng, 100, &mut same, 2);
    assert_eq!(same, vec![3, 4]);

    let mut short = vec![7u32, 50];
    force_len(&mut rng, 100, &mut short, 40);
    assert_eq!(short.len(), 40);
    assert!(short.windows(2).all(|w| w[0] < w[1]));
    assert!(short.contains(&7) && short.contains(&50));
    assert!(short.iter().all(|&v| v < 100));

    // Asking for more than the universe holds gives the whole universe.
    let mut all = vec![2u32];
    force_len(&mut rng, 10, &mut all, 1000);
    assert_eq!(all, (0..10).collect::<Vec<u32>>());

    let mut empty_universe: Vec<u32> = Vec::new();
    force_len(&mut rng, 0, &mut empty_universe, 5);
    assert!(empty_universe.is_empty());
}

#[test]
fn periodic_with_narrow_jitter_hits_every_inner_window() {
    let mut rng = StdRng::seed_from_u64(11);
    let stride = 100u32;
    let jitter = 10u32;
    let list = periodic_list(&mut rng, 10_000, stride, jitter);
    for k in 1..99u32 {
        let c = k * stride;
        assert!(list.iter().any(|v| c - jitter <= *v && *v <= c + jitter), "window {k}");
    }
}

#[test]
fn periodic_with_narrow_jitter_puts_one_value_per_window() {
    let mut rng = StdRng::seed_from_u64(5);
    let stride = 64u32;
    let jitter = 20u32;
    let list = periodic_list(&mut rng, 6_400, stride, jitter);
    let windows: Vec<u32> = list.iter().map(|v| (v + jitter) / stride).collect();
    for pair in windows.windows(2) {
        assert!(pair[0] < pair[1], "{pair:?}");
    }
    for v in &list {
        let k = (v + jitter) / stride;
        assert!(k * stride <= v + jitter && *v <= k * stride + jitter);
    }
}
