use intpack_bench::extract::{add_doc, append_deltas, distinct_terms, finish, fnv1a, for_each_word, keep_term, sample_d, trigrams, Postings};

#[test]
fn tokenise_drops_short_runs_without_occupying_a_position() {
    let got = for_each_word(b"Alpha _x a beta2");
    assert_eq!(got, vec![(b"alpha".to_vec(), 0), (b"_x".to_vec(), 1), (b"beta2".to_vec(), 2)]);
}

#[test]
fn posdeltas_restart_per_doc() {
    let mut out = Vec::new();
    append_deltas(&mut out, &[0, 3, 10]);
    append_deltas(&mut out, &[2, 4]);
    assert_eq!(out, vec![0, 3, 7, 2, 2]);
}

#[test]
fn fnv1a_is_seeded_and_deterministic() {
    assert_eq!(fnv1a(42, b"alpha"), fnv1a(42, b"alpha"));
    assert_ne!(fnv1a(42, b"alpha"), fnv1a(43, b"alpha"));
    assert_ne!(fnv1a(42, b"alpha"), fnv1a(42, b"beta"));
}

#[test]
fn sample_d_keeps_everything_when_under_budget() {
    assert_eq!(sample_d(10, 100), 1);
    assert_eq!(sample_d(100, 100), 1);
    assert_eq!(sample_d(101, 100), 2);
    assert_eq!(sample_d(250, 100), 3);
    assert_eq!(sample_d(1, 0), 0);
}

#[test]
fn words_longer_than_sixty_four_are_dropped() {
    let mut text = vec![b'a'; 65];
    text.extend_from_slice(b" ok");
    let got = for_each_word(&text);
    assert_eq!(got, vec![(b"ok".to_vec(), 0)]);
}

#[test]
fn trigrams_are_every_window() {
    assert_eq!(trigrams(b"abcd"), vec![*b"abc", *b"bcd"]);
    assert!(trigrams(b"ab").is_empty());
}

#[test]
fn fnv1a_of_empty_term_is_the_seeded_offset() {
    // FNV-1a over the eight zero bytes of seed 0.
    let mut h: u64 = 0xcbf2_9ce4_8422_2325;
    for _ in 0..8 {
        h = h.wrapping_mul(0x100_0000_01b3);
    }
    assert_eq!(fnv1a(0, b""), h);
}

#[test]
fn keep_term_with_d_one_keeps_everything_and_zero_nothing() {
    assert!(keep_term(b"alpha", 7, 1));
    assert!(!keep_term(b"alpha", 7, 0));
}

#[test]
fn positions_saturate_at_zero_when_not_increasing() {
    let mut out = Vec::new();
    append_deltas(&mut out, &[5, 3]);
    assert_eq!(out, vec![5, 0]);
}

#[test]
fn two_documents_make_six_aligned_datasets() {
    let mut acc = Postings::new();
    add_doc(&mut acc, 0, b"foo bar foo", 0, 1, 1);
    add_doc(&mut acc, 1, b"bar baz", 0, 1, 1);
    let ds = finish(acc, 2, &[11, 7], &[100, 90], "test");
    let names: Vec<&str> = ds.iter().map(|d| d.meta.name.as_str()).collect();
    assert_eq!(
        names,
        vec!["words.docs", "trigrams.docs", "words.freqs", "words.posdeltas", "docs.sizes", "docs.mtimes"]
    );
    // Terms in byte order: bar, baz, foo.
    assert_eq!(ds[0].lists, vec![vec![0, 1], vec![1], vec![0]]);
    assert_eq!(ds[2].lists, vec![vec![1, 1], vec![1], vec![2]]);
    assert_eq!(ds[3].lists, vec![vec![1, 0], vec![1], vec![0, 2]]);
    // " ba", " fo", "ar ", "bar", "baz", "foo", "o b", "oo ", "r b", "r f"; each doc once.
    assert_eq!(
        ds[1].lists,
        vec![vec![0, 1], vec![0], vec![0, 1], vec![0, 1], vec![1], vec![0], vec![0], vec![0], vec![1], vec![0]]
    );
    assert_eq!(ds[4].lists, vec![vec![11, 7]]);
    assert_eq!(ds[5].lists, vec![vec![10, 0]]);
    for d in &ds {
        assert!(d.validate().is_ok());
    }
}

#[test]
fn sampling_with_zero_keeps_no_terms() {
    let mut acc = Postings::new();
    add_doc(&mut acc, 3, b"alpha beta", 7, 0, 0);
    let ds = finish(acc, 4, &[10], &[5], "test");
    assert!(ds[0].lists.is_empty() && ds[1].lists.is_empty());
    assert_eq!(ds[5].lists, vec![vec![0]]);
}

#[test]
fn distinct_terms_counts_each_word_and_trigram_once() {
    assert_eq!(distinct_terms(b"ab ab cd"), (2, 5));
    assert_eq!(distinct_terms(b""), (0, 0));
    assert_eq!(distinct_terms(b"x"), (0, 0));
}
