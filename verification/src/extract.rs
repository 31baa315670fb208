//! Corpus extraction, the computing half: tokenising a file into words,
//! byte trigrams, the seeded term sampling, and the per-doc position deltas.
//! Walking the tree and reading files is the caller's job.
//!
//! A word is a maximal `[A-Za-z0-9_]` run, ASCII-lowercased, of length
//! 2..=64; its position is its index among the accepted words of the file.
//! Sampling keeps a term iff `fnv1a(seed || term) % D == 0`, with `D` chosen
//! from a first-pass posting count so the kept total is about `max_ints`.

use vstd::prelude::*;

use std::collections::HashMap;

use crate::bytes::le_u64;
use crate::stream::{below, list_ok, strictly_increasing, Dataset, Kind};

verus! {

/// Files larger than this are skipped.
pub const MAX_FILE_BYTES: u64 = 8388608;

/// Files with a NUL in their first this-many bytes are skipped as binary.
pub const PROBE_BYTES: usize = 8192;

pub const WORD_MIN: usize = 2;

pub const WORD_MAX: usize = 64;

pub const FNV_OFFSET: u64 = 0xcbf2_9ce4_8422_2325;

pub const FNV_PRIME: u64 = 0x100_0000_01b3;

#[derive(Clone, Copy, Debug)]
pub struct Options {
    /// Deterministic term sampling keeps roughly this many ints per dataset
    /// while preserving the list-length distribution.
    pub max_ints: usize,
    pub seed: u64,
}

/// `[A-Za-z0-9_]`.
pub open spec fn word_byte(b: u8) -> bool {
    (0x41 <= b <= 0x5a) || (0x61 <= b <= 0x7a) || (0x30 <= b <= 0x39) || b == 0x5f
}

/// ASCII lowercase of one byte.
pub open spec fn lower(b: u8) -> u8 {
    if 0x41 <= b <= 0x5a {
        (b + 32) as u8
    } else {
        b
    }
}

/// Lowercasing maps each of `A`..=`Z` (65..=90) to the letter 32 above it
/// and leaves every other byte alone; no uppercase letter comes out.
pub proof fn lemma_lower_is_ascii_lowercase(b: u8)
    ensures
        65 <= b <= 90 ==> lower(b) == b + 32,
        !(65 <= b <= 90) ==> lower(b) == b,
        !(65 <= lower(b) <= 90),
{
}

pub fn is_word_byte(b: u8) -> (r: bool)
    ensures
        r == word_byte(b),
{
    (0x41 <= b && b <= 0x5a) || (0x61 <= b && b <= 0x7a) || (0x30 <= b && b <= 0x39) || b == 0x5f
}

fn to_lower(b: u8) -> (r: u8)
    ensures
        r == lower(b),
{
    if 0x41 <= b && b <= 0x5a {
        b + 32
    } else {
        b
    }
}

/// End of the word-byte run starting at `i`.
pub open spec fn run_end(s: Seq<u8>, i: int) -> int
    decreases s.len() - i,
{
    if i >= s.len() || !word_byte(s[i]) {
        i
    } else {
        run_end(s, i + 1)
    }
}

/// The run of word bytes from `i` ends inside the buffer, at a byte that
/// is not a word byte or at the end.
pub proof fn lemma_run_end(s: Seq<u8>, i: int)
    requires
        0 <= i <= s.len(),
    ensures
        i <= run_end(s, i) <= s.len(),
        forall|j: int| i <= j < run_end(s, i) ==> word_byte(#[trigger] s[j]),
        run_end(s, i) < s.len() ==> !word_byte(s[run_end(s, i)]),
    decreases s.len() - i,
{
    if i < s.len() && word_byte(s[i]) {
        lemma_run_end(s, i + 1);
    }
}

/// The accepted words from `i` on, lowercased, with positions counting up
/// from `pos` (saturating).
pub open spec fn words_from(s: Seq<u8>, i: int, pos: u32) -> Seq<(Seq<u8>, u32)>
    decreases s.len() - i, 0int,
{
    if i >= s.len() || i < 0 {
        Seq::empty()
    } else if !word_byte(s[i]) {
        words_from(s, i + 1, pos)
    } else {
        let e = run_end(s, i + 1);
        proof {
            lemma_run_end(s, i + 1);
        }
        if e - i < 2 || e - i > 64 {
            words_from(s, e, pos)
        } else {
            seq![(s.subrange(i, e).map_values(|b: u8| lower(b)), pos)] + words_from(
                s,
                e,
                pos.saturating_add(1),
            )
        }
    }
}

/// What `for_each_word` reports, as plain sequences.
pub open spec fn words_view(r: Seq<(Vec<u8>, u32)>) -> Seq<(Seq<u8>, u32)> {
    r.map_values(|w: (Vec<u8>, u32)| (w.0@, w.1))
}

/// Each indexed word of `bytes`, lowercased, with its position. Position
/// counts accepted words only (length 2..=64); shorter and longer runs are
/// dropped without taking a position.
pub fn for_each_word(bytes: &[u8]) -> (r: Vec<(Vec<u8>, u32)>)
    ensures
        words_view(r@) == words_from(bytes@, 0, 0),
{
    let mut out: Vec<(Vec<u8>, u32)> = Vec::new();
    let mut pos: u32 = 0;
    let mut i: usize = 0;
    let len = bytes.len();
    while i < len
        invariant
            len == bytes@.len(),
            i <= len,
            words_view(out@) + words_from(bytes@, i as int, pos) == words_from(bytes@, 0, 0),
        decreases len - i,
    {
        if !is_word_byte(bytes[i]) {
            i = i + 1;
            continue;
        }
        let start = i;
        i = i + 1;
        proof {
            lemma_run_end(bytes@, i as int);
        }
        while i < len && is_word_byte(bytes[i])
            invariant
                len == bytes@.len(),
                start < i <= len,
                run_end(bytes@, i as int) == run_end(bytes@, start + 1),
            decreases len - i,
        {
            i = i + 1;
        }
        let n = i - start;
        if n < WORD_MIN || n > WORD_MAX {
            continue;
        }
        let mut w: Vec<u8> = Vec::new();
        let mut j: usize = start;
        while j < i
            invariant
                start <= j <= i <= len,
                len == bytes@.len(),
                w@ == bytes@.subrange(start as int, j as int).map_values(|b: u8| lower(b)),
            decreases i - j,
        {
            w.push(to_lower(bytes[j]));
            proof {
                assert(w@ =~= bytes@.subrange(start as int, j + 1).map_values(|b: u8| lower(b)));
            }
            j = j + 1;
        }
        let ghost before = out@;
        out.push((w, pos));
        proof {
            assert(words_view(out@) =~= words_view(before) + seq![
                (bytes@.subrange(start as int, i as int).map_values(|b: u8| lower(b)), pos),
            ]);
        }
        pos = pos.saturating_add(1);
    }
    assert(words_view(out@) + words_from(bytes@, i as int, pos) =~= words_view(out@));
    out
}

/// Every overlapping window of three bytes, in order.
pub fn trigrams(bytes: &[u8]) -> (r: Vec<[u8; 3]>)
    ensures
        r@.len() == (if bytes@.len() >= 3 {
            bytes@.len() - 2
        } else {
            0
        }),
        forall|i: int| 0 <= i < r@.len() ==> #[trigger] r@[i]@ == bytes@.subrange(i, i + 3),
{
    let mut out: Vec<[u8; 3]> = Vec::new();
    let len = bytes.len();
    if len < 3 {
        return out;
    }
    let mut i: usize = 0;
    while i < len - 2
        invariant
            len == bytes@.len(),
            len >= 3,
            i <= len - 2,
            out@.len() == i,
            forall|k: int| 0 <= k < i ==> #[trigger] out@[k]@ == bytes@.subrange(k, k + 3),
        decreases len - i,
    {
        let t: [u8; 3] = [bytes[i], bytes[i + 1], bytes[i + 2]];
        assert(t@ =~= bytes@.subrange(i as int, i + 3));
        out.push(t);
        i = i + 1;
    }
    out
}

/// One FNV-1a step: xor the byte in, multiply by the prime (wrapping).
pub open spec fn fnv_step(h: u64, b: u8) -> u64 {
    (h ^ (b as u64)).wrapping_mul(FNV_PRIME)
}

/// FNV-1a of `s` from state `h`.
pub open spec fn fnv_over(h: u64, s: Seq<u8>) -> u64
    decreases s.len(),
{
    if s.len() == 0 {
        h
    } else {
        fnv_step(fnv_over(h, s.drop_last()), s.last())
    }
}

fn fnv_fold(h: u64, s: &[u8]) -> (r: u64)
    ensures
        r == fnv_over(h, s@),
{
    let mut h = h;
    let ghost h0 = h;
    let mut i: usize = 0;
    while i < s.len()
        invariant
            i <= s@.len(),
            h == fnv_over(h0, s@.subrange(0, i as int)),
        decreases s@.len() - i,
    {
        proof {
            assert(s@.subrange(0, i + 1).drop_last() =~= s@.subrange(0, i as int));
        }
        h = (h ^ (s[i] as u64)).wrapping_mul(FNV_PRIME);
        i = i + 1;
    }
    assert(s@.subrange(0, s@.len() as int) =~= s@);
    h
}

/// FNV-1a 64-bit over `seed` (little-endian) followed by `term`.
pub fn fnv1a(seed: u64, term: &[u8]) -> (r: u64)
    ensures
        r == fnv_over(fnv_over(FNV_OFFSET, le_u64(seed)), term@),
{
    let seed_bytes: [u8; 8] = [
        seed as u8,
        (seed >> 8) as u8,
        (seed >> 16) as u8,
        (seed >> 24) as u8,
        (seed >> 32) as u8,
        (seed >> 40) as u8,
        (seed >> 48) as u8,
        (seed >> 56) as u8,
    ];
    assert(seed_bytes@ =~= le_u64(seed));
    let h = fnv_fold(FNV_OFFSET, seed_bytes.as_slice());
    fnv_fold(h, term)
}

/// Keep-modulus so expected kept postings are at most `max_ints`: the
/// ceiling of `total_postings / max_ints`, at least one; zero when
/// `max_ints` is zero.
pub fn sample_d(total_postings: usize, max_ints: usize) -> (r: u64)
    ensures
        max_ints == 0 ==> r == 0,
        max_ints > 0 ==> r == (if total_postings <= max_ints {
            1
        } else {
            (total_postings + max_ints - 1) / (max_ints as int)
        }),
{
    if max_ints == 0 {
        return 0;
    }
    let q = total_postings / max_ints;
    let rem = total_postings % max_ints;
    proof {
        let t = total_postings as int;
        let m = max_ints as int;
        assert(t == m * q + rem) by (nonlinear_arith)
            requires
                q == t / m,
                rem == t % m,
                m > 0,
        ;
        if rem != 0 {
            assert(q + 1 <= usize::MAX) by (nonlinear_arith)
                requires
                    t == m * q + rem,
                    0 < rem < m,
                    t <= usize::MAX,
                    q >= 0,
            ;
        }
    }
    let c = if rem != 0 {
        q + 1
    } else {
        q
    };
    proof {
        let t = total_postings as int;
        let m = max_ints as int;
        assert(t == m * q + rem) by (nonlinear_arith)
            requires
                q == t / m,
                rem == t % m,
                m > 0,
        ;
        if rem != 0 {
            assert((t + m - 1) / m == q + 1) by (nonlinear_arith)
                requires
                    t == m * q + rem,
                    0 < rem < m,
            ;
        } else {
            assert((t + m - 1) / m == q) by (nonlinear_arith)
                requires
                    t == m * q,
                    m > 0,
            ;
        }
        if t <= m {
            assert(c <= 1) by (nonlinear_arith)
                requires
                    t <= m,
                    m > 0,
                    t == m * q + rem,
                    0 <= rem < m,
                    c == (if rem != 0 { q + 1 } else { q as int }),
            ;
        } else {
            assert(c >= 1) by (nonlinear_arith)
                requires
                    t > m,
                    m > 0,
                    t == m * q + rem,
                    0 <= rem < m,
                    c == (if rem != 0 { q + 1 } else { q as int }),
            ;
        }
    }
    if c < 1 {
        1
    } else {
        c as u64
    }
}

/// Whether sampling keeps `term`: `d` is non-zero and divides its hash.
pub fn keep_term(term: &[u8], seed: u64, d: u64) -> (r: bool)
    ensures
        r == (d != 0 && fnv_over(fnv_over(FNV_OFFSET, le_u64(seed)), term@) % d == 0),
{
    d != 0 && fnv1a(seed, term) % d == 0
}

/// A doc's positions as stored: the first as-is, each later one as its
/// (saturating) distance from the one before.
pub open spec fn pos_deltas(p: Seq<u32>) -> Seq<u32> {
    Seq::new(
        p.len(),
        |i: int|
            if i == 0 {
                p[0]
            } else {
                p[i].saturating_sub(p[i - 1])
            },
    )
}

/// Append one doc's positions as deltas; the first position of each doc is
/// stored raw, so deltas restart per doc.
pub fn append_deltas(out: &mut Vec<u32>, positions: &[u32])
    ensures
        final(out)@ == old(out)@ + pos_deltas(positions@),
{
    if positions.len() == 0 {
        assert(pos_deltas(positions@) =~= Seq::<u32>::empty());
        return ;
    }
    let ghost start = out@;
    out.push(positions[0]);
    let mut prev = positions[0];
    let mut i: usize = 1;
    while i < positions.len()
        invariant
            1 <= i <= positions@.len(),
            prev == positions@[i - 1],
            out@ == start + pos_deltas(positions@).subrange(0, i as int),
        decreases positions@.len() - i,
    {
        let p = positions[i];
        out.push(p.saturating_sub(prev));
        proof {
            assert(out@ =~= start + pos_deltas(positions@).subrange(0, i + 1));
        }
        prev = p;
        i = i + 1;
    }
    assert(pos_deltas(positions@).subrange(0, positions@.len() as int) =~= pos_deltas(
        positions@,
    ));
}

/// No word `words_from` reports holds an uppercase ASCII letter (65..=90):
/// every word is lowercased.
pub proof fn lemma_words_are_lowercase(s: Seq<u8>, i: int, pos: u32)
    ensures
        forall|k: int, j: int|
            0 <= k < words_from(s, i, pos).len() && 0 <= j < words_from(s, i, pos)[k].0.len() ==> !(65
                <= #[trigger] words_from(s, i, pos)[k].0[j] <= 90),
    decreases s.len() - i,
{
    if 0 <= i < s.len() {
        if !word_byte(s[i]) {
            lemma_words_are_lowercase(s, i + 1, pos);
            assert(words_from(s, i, pos) == words_from(s, i + 1, pos));
        } else {
            lemma_run_end(s, i + 1);
            let e = run_end(s, i + 1);
            if e - i < 2 || e - i > 64 {
                lemma_words_are_lowercase(s, e, pos);
                assert(words_from(s, i, pos) == words_from(s, e, pos));
            } else {
                let rest = words_from(s, e, pos.saturating_add(1));
                lemma_words_are_lowercase(s, e, pos.saturating_add(1));
                let w = s.subrange(i, e).map_values(|b: u8| lower(b));
                let all = seq![(w, pos)] + rest;
                assert(words_from(s, i, pos) == all);
                assert forall|k: int, j: int|
                    0 <= k < all.len() && 0 <= j < all[k].0.len() implies !(65 <= #[trigger] all[k].0[j]
                    <= 90) by {
                    if k == 0 {
                        lemma_lower_is_ascii_lowercase(s.subrange(i, e)[j]);
                    } else {
                        assert(all[k] == rest[k - 1]);
                    }
                }
                assert forall|k: int, j: int|
                    0 <= k < words_from(s, i, pos).len() && 0 <= j < words_from(s, i, pos)[k].0.len()
                        implies !(65 <= #[trigger] words_from(s, i, pos)[k].0[j] <= 90) by {
                    assert(words_from(s, i, pos)[k] == all[k]);
                }
            }
        }
    }
}

/// Positions of the words from `i` on count up from `pos` by one each, and
/// there are at most as many words as bytes left.
proof fn lemma_words_from_positions(s: Seq<u8>, i: int, pos: u32)
    requires
        0 <= i <= s.len(),
        pos + (s.len() - i) < u32::MAX,
    ensures
        words_from(s, i, pos).len() <= s.len() - i,
        forall|k: int|
            0 <= k < words_from(s, i, pos).len() ==> #[trigger] words_from(s, i, pos)[k].1 == pos + k,
    decreases s.len() - i, 0int,
{
    if i < s.len() {
        if !word_byte(s[i]) {
            lemma_words_from_positions(s, i + 1, pos);
        } else {
            lemma_run_end(s, i + 1);
            let e = run_end(s, i + 1);
            if e - i < 2 || e - i > 64 {
                lemma_words_from_positions(s, e, pos);
            } else {
                lemma_words_from_positions(s, e, (pos + 1) as u32);
                let rest = words_from(s, e, (pos + 1) as u32);
                let w = seq![(s.subrange(i, e).map_values(|b: u8| lower(b)), pos)];
                assert(words_from(s, i, pos) == w + rest);
                assert forall|k: int| 0 <= k < (w + rest).len() implies #[trigger] (w + rest)[k].1
                    == pos + k by {
                    if k > 0 {
                        assert((w + rest)[k] == rest[k - 1]);
                    }
                }
            }
        }
    }
}

/// Sum of the values.
pub open spec fn sum_of(s: Seq<u32>) -> int
    decreases s.len(),
{
    if s.len() == 0 {
        0
    } else {
        sum_of(s.drop_last()) + s.last()
    }
}

/// The three-byte key of a trigram.
pub open spec fn trigram_code(t: Seq<u8>) -> u32 {
    (t[0] as int * 0x10000 + t[1] as int * 0x100 + t[2] as int) as u32
}

/// Different trigrams have different codes.
proof fn lemma_trigram_code_one_to_one(a: Seq<u8>, b: Seq<u8>)
    requires
        a.len() == 3,
        b.len() == 3,
        trigram_code(a) == trigram_code(b),
    ensures
        a == b,
{
    let (a0, a1, a2, b0, b1, b2) = (a[0] as int, a[1] as int, a[2] as int, b[0] as int, b[1] as int, b[2] as int);
    assert(a0 * 0x10000 + a1 * 0x100 + a2 == b0 * 0x10000 + b1 * 0x100 + b2);
    assert(a0 == b0 && a1 == b1 && a2 == b2) by (nonlinear_arith)
        requires
            a0 * 0x10000 + a1 * 0x100 + a2 == b0 * 0x10000 + b1 * 0x100 + b2,
            0 <= a0 < 256,
            0 <= a1 < 256,
            0 <= a2 < 256,
            0 <= b0 < 256,
            0 <= b1 < 256,
            0 <= b2 < 256,
    ;
    assert(a =~= b);
}

/// Whether two byte strings are equal.
fn same_term(a: &[u8], b: &[u8]) -> (r: bool)
    ensures
        r == (a@ == b@),
{
    if a.len() != b.len() {
        return false;
    }
    let mut i: usize = 0;
    while i < a.len()
        invariant
            a@.len() == b@.len(),
            i <= a@.len(),
            forall|j: int| 0 <= j < i ==> a@[j] == b@[j],
        decreases a@.len() - i,
    {
        if a[i] != b[i] {
            return false;
        }
        i = i + 1;
    }
    assert(a@ =~= b@);
    true
}

/// The key a word term is filed under in the index.
pub open spec fn term_key(w: Seq<u8>) -> u64 {
    fnv_over(FNV_OFFSET, w)
}

/// The postings of the documents added so far: per word term, its
/// documents, its frequency in each and its position deltas; per trigram,
/// its documents. Terms keep the order in which they were first seen, and
/// no term is held twice.
pub struct Postings {
    terms: Vec<Vec<u8>>,
    term_index: HashMap<u64, Vec<usize>>,
    docs: Vec<Vec<u32>>,
    freqs: Vec<Vec<u32>>,
    posdeltas: Vec<Vec<u32>>,
    last_pos: Vec<u32>,
    tri_terms: Vec<Vec<u8>>,
    tri_index: HashMap<u32, usize>,
    tri_docs: Vec<Vec<u32>>,
    next_doc: u32,
}

/// The slot of `bucket` whose term is `w`, if any.
fn find_in_bucket(terms: &Vec<Vec<u8>>, bucket: &Vec<usize>, w: &[u8]) -> (r: Option<usize>)
    ensures
        r matches Some(i) ==> i < terms@.len() && terms@[i as int]@ == w@,
        r is None ==> forall|x: usize|
            #[trigger] bucket@.contains(x) ==> !(x < terms@.len() && terms@[x as int]@ == w@),
{
    let mut j: usize = 0;
    while j < bucket.len()
        invariant
            j <= bucket@.len(),
            forall|jj: int|
                0 <= jj < j ==> !(bucket@[jj] < terms@.len() && #[trigger] terms@[bucket@[jj] as int]@
                    == w@),
        decreases bucket@.len() - j,
    {
        let i = bucket[j];
        if i < terms.len() && same_term(terms[i].as_slice(), w) {
            return Some(i);
        }
        j = j + 1;
    }
    assert forall|x: usize| #[trigger] bucket@.contains(x) implies !(x < terms@.len() && terms@[x as int]@
        == w@) by {
        let i = choose|i: int| 0 <= i < bucket@.len() && bucket@[i] == x;
        assert(!(bucket@[i] < terms@.len() && terms@[bucket@[i] as int]@ == w@));
    }
    None
}

impl Postings {
    /// One word term's lists hold together: strictly increasing documents
    /// below `next`, one frequency per document, as many position deltas
    /// as the frequencies add up to, and every value below `u32::MAX`.
    pub open spec fn term_ok(docs: Seq<u32>, freqs: Seq<u32>, deltas: Seq<u32>, next: u32) -> bool {
        &&& strictly_increasing(docs)
        &&& below(docs, next)
        &&& docs.len() == freqs.len()
        &&& sum_of(freqs) == deltas.len()
        &&& below(freqs, u32::MAX)
        &&& below(deltas, u32::MAX)
    }

    /// The accumulator's invariant.
    pub closed spec fn wf(&self) -> bool {
        &&& self.docs@.len() == self.terms@.len()
        &&& self.freqs@.len() == self.terms@.len()
        &&& self.posdeltas@.len() == self.terms@.len()
        &&& self.last_pos@.len() == self.terms@.len()
        &&& self.tri_docs@.len() == self.tri_terms@.len()
        &&& forall|t: int|
            0 <= t < self.terms@.len() ==> #[trigger] Self::term_ok(
                self.docs@[t]@,
                self.freqs@[t]@,
                self.posdeltas@[t]@,
                self.next_doc,
            )
        &&& forall|t: int|
            0 <= t < self.tri_terms@.len() ==> strictly_increasing(#[trigger] self.tri_docs@[t]@)
                && below(self.tri_docs@[t]@, self.next_doc)
        &&& forall|i: int, j: int|
            0 <= i < j < self.terms@.len() ==> #[trigger] self.terms@[i]@ != #[trigger] self.terms@[j]@
        &&& forall|t: int|
            0 <= t < self.terms@.len() ==> self.term_index@.contains_key(
                term_key(#[trigger] self.terms@[t]@),
            ) && self.term_index@[term_key(self.terms@[t]@)]@.contains(t as usize)
        &&& forall|i: int, j: int|
            0 <= i < j < self.tri_terms@.len() ==> #[trigger] self.tri_terms@[i]@
                != #[trigger] self.tri_terms@[j]@
        &&& forall|t: int|
            0 <= t < self.tri_terms@.len() ==> (#[trigger] self.tri_terms@[t]@).len() == 3
                && self.tri_index@.contains_key(trigram_code(self.tri_terms@[t]@))
                && self.tri_index@[trigram_code(self.tri_terms@[t]@)] == t
    }

    /// The word terms, in the order they were first seen.
    pub closed spec fn word_terms(&self) -> Seq<Seq<u8>> {
        key_views(self.terms@)
    }

    /// Word term `t`'s documents, frequencies and position deltas.
    pub closed spec fn word_lists(&self, t: int) -> (Seq<u32>, Seq<u32>, Seq<u32>) {
        (self.docs@[t]@, self.freqs@[t]@, self.posdeltas@[t]@)
    }

    /// The trigrams, in the order they were first seen.
    pub closed spec fn trigram_terms(&self) -> Seq<Seq<u8>> {
        key_views(self.tri_terms@)
    }

    /// Trigram `t`'s documents.
    pub closed spec fn trigram_docs(&self, t: int) -> Seq<u32> {
        self.tri_docs@[t]@
    }

    /// Each word term with its documents, frequencies and position deltas.
    pub closed spec fn word_map(&self) -> Map<Seq<u8>, (Seq<u32>, Seq<u32>, Seq<u32>)> {
        Map::new(
            |w: Seq<u8>| exists|t: int| 0 <= t < self.terms@.len() && #[trigger] self.terms@[t]@ == w,
            |w: Seq<u8>|
                {
                    let t = choose|t: int| 0 <= t < self.terms@.len() && #[trigger] self.terms@[t]@ == w;
                    self.word_lists(t)
                },
        )
    }

    /// Each trigram with its documents.
    pub closed spec fn trigram_map(&self) -> Map<Seq<u8>, Seq<u32>> {
        Map::new(
            |w: Seq<u8>|
                exists|t: int| 0 <= t < self.tri_terms@.len() && #[trigger] self.tri_terms@[t]@ == w,
            |w: Seq<u8>|
                {
                    let t = choose|t: int|
                        0 <= t < self.tri_terms@.len() && #[trigger] self.tri_terms@[t]@ == w;
                    self.tri_docs@[t]@
                },
        )
    }

    /// Documents `0..docs_seen()` may have been added; the next must not be
    /// below it.
    pub closed spec fn docs_seen(&self) -> u32 {
        self.next_doc
    }

    /// Word term `t` is filed in the map under its bytes, with its lists.
    proof fn lemma_word_map_at(&self, t: int)
        requires
            self.wf(),
            0 <= t < self.terms@.len(),
        ensures
            self.word_map().contains_key(self.terms@[t]@),
            self.word_map()[self.terms@[t]@] == self.word_lists(t),
    {
        let w = self.terms@[t]@;
        assert(self.word_map().contains_key(w));
        let c = choose|c: int| 0 <= c < self.terms@.len() && #[trigger] self.terms@[c]@ == w;
        if c != t {
            if c < t {
                assert(self.terms@[c]@ != self.terms@[t]@);
            } else {
                assert(self.terms@[t]@ != self.terms@[c]@);
            }
        }
    }

    /// Trigram `t` is filed in the map under its bytes, with its documents.
    proof fn lemma_trigram_map_at(&self, t: int)
        requires
            self.wf(),
            0 <= t < self.tri_terms@.len(),
        ensures
            self.trigram_map().contains_key(self.tri_terms@[t]@),
            self.trigram_map()[self.tri_terms@[t]@] == self.tri_docs@[t]@,
    {
        let w = self.tri_terms@[t]@;
        assert(self.trigram_map().contains_key(w));
        let c = choose|c: int| 0 <= c < self.tri_terms@.len() && #[trigger] self.tri_terms@[c]@ == w;
        if c != t {
            if c < t {
                assert(self.tri_terms@[c]@ != self.tri_terms@[t]@);
            } else {
                assert(self.tri_terms@[t]@ != self.tri_terms@[c]@);
            }
        }
    }

    /// No documents yet.
    pub fn new() -> (r: Self)
        ensures
            r.wf(),
            r.docs_seen() == 0,
            r.word_map() == Map::<Seq<u8>, (Seq<u32>, Seq<u32>, Seq<u32>)>::empty(),
            r.trigram_map() == Map::<Seq<u8>, Seq<u32>>::empty(),
    {
        let r = Postings {
            terms: Vec::new(),
            term_index: HashMap::new(),
            docs: Vec::new(),
            freqs: Vec::new(),
            posdeltas: Vec::new(),
            last_pos: Vec::new(),
            tri_terms: Vec::new(),
            tri_index: HashMap::new(),
            tri_docs: Vec::new(),
            next_doc: 0,
        };
        assert(r.word_map() =~= Map::<Seq<u8>, (Seq<u32>, Seq<u32>, Seq<u32>)>::empty());
        assert(r.trigram_map() =~= Map::<Seq<u8>, Seq<u32>>::empty());
        r
    }

    /// The slot of a word term, made when it is new.
    fn word_slot(&mut self, w: Vec<u8>) -> (t: usize)
        requires
            old(self).wf(),
        ensures
            final(self).wf(),
            final(self).next_doc == old(self).next_doc,
            t < final(self).terms@.len(),
            final(self).terms@[t as int]@ == w@,
            t < old(self).terms@.len() ==> final(self).terms@ == old(self).terms@,
            t >= old(self).terms@.len() ==> t == old(self).terms@.len() && final(self).terms@.len()
                == t + 1 && forall|u: int|
                0 <= u < old(self).terms@.len() ==> #[trigger] old(self).terms@[u]@ != w@,
            forall|u: int|
                0 <= u < old(self).terms@.len() ==> #[trigger] final(self).terms@[u] == old(
                    self,
                ).terms@[u],
            forall|u: int|
                0 <= u < old(self).terms@.len() ==> {
                    &&& #[trigger] final(self).docs@[u] == old(self).docs@[u]
                    &&& final(self).freqs@[u] == old(self).freqs@[u]
                    &&& final(self).posdeltas@[u] == old(self).posdeltas@[u]
                    &&& final(self).last_pos@[u] == old(self).last_pos@[u]
                },
            t >= old(self).terms@.len() ==> final(self).docs@[t as int]@.len() == 0
                && final(self).freqs@[t as int]@.len() == 0 && final(self).posdeltas@[t as int]@.len()
                == 0,
            final(self).tri_terms@ == old(self).tri_terms@,
            final(self).tri_docs@ == old(self).tri_docs@,
            final(self).tri_index@ == old(self).tri_index@,
    {
        broadcast use vstd::std_specs::hash::group_hash_axioms;

        let h = fnv_fold(FNV_OFFSET, w.as_slice());
        let n_terms = self.terms.len();
        let found = match self.term_index.get(&h) {
            Some(bucket) => {
                let r = find_in_bucket(&self.terms, bucket, w.as_slice());
                proof {
                    if r is None {
                        assert forall|u: int|
                            0 <= u < old(self).terms@.len() implies #[trigger] old(self).terms@[u]@
                            != w@ by {
                            if old(self).terms@[u]@ == w@ {
                                assert(bucket@.contains(u as usize));
                                assert(self.terms@[u] == old(self).terms@[u]);
                            }
                        }
                    }
                }
                r
            },
            None => {
                proof {
                    assert forall|u: int|
                        0 <= u < old(self).terms@.len() implies #[trigger] old(self).terms@[u]@ != w@ by {
                        if old(self).terms@[u]@ == w@ {
                            assert(self.term_index@.contains_key(term_key(old(self).terms@[u]@)));
                        }
                    }
                }
                None
            },
        };
        match found {
            Some(i) => {
                proof {
                    if i >= old(self).terms@.len() {
                        assert(false);
                    }
                }
                i
            },
            None => {
                let t = self.terms.len();
                let ghost old_index = self.term_index@;
                let mut bucket = match self.term_index.remove(&h) {
                    Some(b) => b,
                    None => Vec::new(),
                };
                let ghost old_bucket = bucket@;
                bucket.push(t);
                let ghost nb = bucket;
                self.term_index.insert(h, bucket);
                self.terms.push(w);
                self.docs.push(Vec::new());
                self.freqs.push(Vec::new());
                self.posdeltas.push(Vec::new());
                self.last_pos.push(0);
                proof {
                    assert(self.term_index@ == old_index.insert(h, nb));
                    assert(nb@ == old_bucket.push(t));
                    assert(old_index.contains_key(h) ==> old_bucket == old_index[h]@);
                    assert(sum_of(Seq::<u32>::empty()) == 0);
                    assert(Self::term_ok(
                        self.docs@[t as int]@,
                        self.freqs@[t as int]@,
                        self.posdeltas@[t as int]@,
                        self.next_doc,
                    ));
                    assert forall|u: int| 0 <= u < self.terms@.len() implies #[trigger] Self::term_ok(
                        self.docs@[u]@,
                        self.freqs@[u]@,
                        self.posdeltas@[u]@,
                        self.next_doc,
                    ) by {
                        if u < t {
                            assert(Self::term_ok(
                                old(self).docs@[u]@,
                                old(self).freqs@[u]@,
                                old(self).posdeltas@[u]@,
                                self.next_doc,
                            ));
                        }
                    }
                    assert forall|i: int, j: int|
                        0 <= i < j < self.terms@.len() implies #[trigger] self.terms@[i]@
                        != #[trigger] self.terms@[j]@ by {
                        if j == t {
                            assert(old(self).terms@[i]@ != w@);
                        } else {
                            assert(old(self).terms@[i]@ != old(self).terms@[j]@);
                        }
                    }
                    assert forall|u: int| 0 <= u < self.terms@.len() implies self.term_index@.contains_key(
                        term_key(#[trigger] self.terms@[u]@),
                    ) && self.term_index@[term_key(self.terms@[u]@)]@.contains(u as usize) by {
                        if u == t {
                            assert(self.term_index@[h]@ == old_bucket.push(t));
                            assert(old_bucket.push(t)[old_bucket.len() as int] == t);
                        } else {
                            let k = term_key(old(self).terms@[u]@);
                            assert(self.terms@[u] == old(self).terms@[u]);
                            if k == h {
                                assert(old_bucket == old_index[h]@);
                                let jj = choose|jj: int| 0 <= jj < old_bucket.len() && old_bucket[jj] == u as usize;
                                assert(old_bucket.push(t)[jj] == u as usize);
                            }
                        }
                    }
                }
                t
            },
        }
    }

    /// The slot of a trigram, made when it is new.
    fn trigram_slot(&mut self, t3: &[u8; 3]) -> (t: usize)
        requires
            old(self).wf(),
        ensures
            final(self).wf(),
            final(self).next_doc == old(self).next_doc,
            t < final(self).tri_terms@.len(),
            final(self).tri_terms@[t as int]@ == t3@,
            t < old(self).tri_terms@.len() ==> final(self).tri_terms@ == old(self).tri_terms@,
            t >= old(self).tri_terms@.len() ==> t == old(self).tri_terms@.len()
                && final(self).tri_terms@.len() == t + 1 && forall|u: int|
                0 <= u < old(self).tri_terms@.len() ==> #[trigger] old(self).tri_terms@[u]@ != t3@,
            forall|u: int|
                0 <= u < old(self).tri_terms@.len() ==> #[trigger] final(self).tri_docs@[u]
                    == old(self).tri_docs@[u],
            forall|u: int|
                0 <= u < old(self).tri_terms@.len() ==> #[trigger] final(self).tri_terms@[u]
                    == old(self).tri_terms@[u],
            t >= old(self).tri_terms@.len() ==> final(self).tri_docs@[t as int]@.len() == 0,
            final(self).terms@ == old(self).terms@,
            final(self).docs@ == old(self).docs@,
            final(self).freqs@ == old(self).freqs@,
            final(self).posdeltas@ == old(self).posdeltas@,
            final(self).last_pos@ == old(self).last_pos@,
            final(self).term_index@ == old(self).term_index@,
    {
        broadcast use vstd::std_specs::hash::group_hash_axioms;

        let code: u32 = t3[0] as u32 * 0x10000 + t3[1] as u32 * 0x100 + t3[2] as u32;
        let bytes: Vec<u8> = vec![t3[0], t3[1], t3[2]];
        assert(bytes@ =~= t3@);
        assert(code == trigram_code(t3@));
        let found = match self.tri_index.get(&code) {
            Some(i) => {
                let i = *i;
                if i < self.tri_terms.len() && same_term(self.tri_terms[i].as_slice(), bytes.as_slice()) {
                    Some(i)
                } else {
                    proof {
                        assert forall|u: int|
                            0 <= u < old(self).tri_terms@.len() implies #[trigger] old(self).tri_terms@[u]@
                            != t3@ by {
                            if old(self).tri_terms@[u]@ == t3@ {
                                assert(self.tri_index@[code] == u);
                            }
                        }
                    }
                    None
                }
            },
            None => {
                proof {
                    assert forall|u: int|
                        0 <= u < old(self).tri_terms@.len() implies #[trigger] old(self).tri_terms@[u]@
                        != t3@ by {
                        if old(self).tri_terms@[u]@ == t3@ {
                            assert(self.tri_index@.contains_key(code));
                        }
                    }
                }
                None
            },
        };
        match found {
            Some(i) => {
                proof {
                    if i >= old(self).tri_terms@.len() {
                        assert(false);
                    }
                }
                i
            },
            None => {
                let t = self.tri_terms.len();
                let ghost old_index = self.tri_index@;
                self.tri_index.insert(code, t);
                self.tri_terms.push(bytes);
                self.tri_docs.push(Vec::new());
                proof {
                    assert forall|u: int| 0 <= u < self.tri_terms@.len() implies strictly_increasing(
                        #[trigger] self.tri_docs@[u]@,
                    ) && below(self.tri_docs@[u]@, self.next_doc) by {
                        if u < t {
                            assert(strictly_increasing(old(self).tri_docs@[u]@));
                        }
                    }
                    assert forall|i: int, j: int|
                        0 <= i < j < self.tri_terms@.len() implies #[trigger] self.tri_terms@[i]@
                        != #[trigger] self.tri_terms@[j]@ by {
                        if j == t {
                            assert(old(self).tri_terms@[i]@ != t3@);
                        } else {
                            assert(old(self).tri_terms@[i]@ != old(self).tri_terms@[j]@);
                        }
                    }
                    assert forall|u: int| 0 <= u < self.tri_terms@.len() implies (
                    #[trigger] self.tri_terms@[u]@).len() == 3 && self.tri_index@.contains_key(
                        trigram_code(self.tri_terms@[u]@),
                    ) && self.tri_index@[trigram_code(self.tri_terms@[u]@)] == u by {
                        if u < t {
                            assert(self.tri_terms@[u] == old(self).tri_terms@[u]);
                            let c = trigram_code(old(self).tri_terms@[u]@);
                            assert(old_index[c] == u);
                            if c == code {
                                lemma_trigram_code_one_to_one(old(self).tri_terms@[u]@, t3@);
                            }
                        }
                    }
                }
                t
            },
        }
    }
}

/// Adding a value sums it in.
proof fn lemma_sum_push(s: Seq<u32>, x: u32)
    ensures
        sum_of(s.push(x)) == sum_of(s) + x,
{
    assert(s.push(x).drop_last() =~= s);
}

/// Raising the last value by one raises the sum by one.
proof fn lemma_sum_bump_last(s: Seq<u32>, v: u32)
    requires
        s.len() > 0,
        v == s.last() + 1,
    ensures
        sum_of(s.update(s.len() - 1, v)) == sum_of(s) + 1,
{
    assert(s.update(s.len() - 1, v).drop_last() =~= s.drop_last());
}

/// A strictly increasing list stays so when a value above its last joins.
proof fn lemma_push_increasing(s: Seq<u32>, x: u32)
    requires
        strictly_increasing(s),
        s.len() == 0 || s.last() < x,
    ensures
        strictly_increasing(s.push(x)),
{
    assert forall|i: int, j: int| 0 <= i < j < s.push(x).len() implies s.push(x)[i] < s.push(x)[j] by {
        if j == s.len() && i < s.len() - 1 {
            assert(s[i] < s[s.len() - 1]);
        }
    }
}

/// Sampling at modulus `d` keeps term `w`.
pub open spec fn sampled(w: Seq<u8>, seed: u64, d: u64) -> bool {
    d != 0 && fnv_over(fnv_over(FNV_OFFSET, le_u64(seed)), w) % d == 0
}

/// Positions of the occurrences of `w` among the first `k` words.
pub open spec fn occurrences(ws: Seq<(Seq<u8>, u32)>, w: Seq<u8>, k: int) -> Seq<u32>
    decreases k,
{
    if k <= 0 {
        Seq::empty()
    } else {
        let prev = occurrences(ws, w, k - 1);
        if ws[k - 1].0 == w {
            prev.push(ws[k - 1].1)
        } else {
            prev
        }
    }
}

/// `w` is one of the trigrams of `bytes`.
pub open spec fn has_trigram(bytes: Seq<u8>, w: Seq<u8>) -> bool {
    exists|i: int| 0 <= i && i + 3 <= bytes.len() && #[trigger] bytes.subrange(i, i + 3) == w
}

/// Word term `w`'s lists once a document `doc` where it occurs at `occ` is
/// added: the document, the number of occurrences, their position deltas.
pub open spec fn with_word_doc(
    m: Map<Seq<u8>, (Seq<u32>, Seq<u32>, Seq<u32>)>,
    w: Seq<u8>,
    doc: u32,
    occ: Seq<u32>,
) -> (Seq<u32>, Seq<u32>, Seq<u32>) {
    let base = if m.contains_key(w) {
        m[w]
    } else {
        (Seq::empty(), Seq::empty(), Seq::empty())
    };
    (base.0.push(doc), base.1.push(occ.len() as u32), base.2 + pos_deltas(occ))
}

/// The word postings after adding document `doc` with contents `bytes`:
/// every sampled word of it gains the document, nothing else changes.
pub open spec fn words_after(
    m: Map<Seq<u8>, (Seq<u32>, Seq<u32>, Seq<u32>)>,
    bytes: Seq<u8>,
    doc: u32,
    seed: u64,
    d: u64,
) -> Map<Seq<u8>, (Seq<u32>, Seq<u32>, Seq<u32>)> {
    let ws = words_from(bytes, 0, 0);
    Map::new(
        |w: Seq<u8>|
            m.contains_key(w) || (sampled(w, seed, d) && occurrences(ws, w, ws.len() as int).len()
                > 0),
        |w: Seq<u8>|
            if sampled(w, seed, d) && occurrences(ws, w, ws.len() as int).len() > 0 {
                with_word_doc(m, w, doc, occurrences(ws, w, ws.len() as int))
            } else {
                m[w]
            },
    )
}

/// The trigram postings after adding document `doc` with contents `bytes`:
/// every sampled trigram of it gains the document once, nothing else
/// changes.
pub open spec fn trigrams_after(
    m: Map<Seq<u8>, Seq<u32>>,
    bytes: Seq<u8>,
    doc: u32,
    seed: u64,
    d: u64,
) -> Map<Seq<u8>, Seq<u32>> {
    Map::new(
        |w: Seq<u8>| m.contains_key(w) || (sampled(w, seed, d) && has_trigram(bytes, w)),
        |w: Seq<u8>|
            if sampled(w, seed, d) && has_trigram(bytes, w) {
                (if m.contains_key(w) {
                    m[w]
                } else {
                    Seq::empty()
                }).push(doc)
            } else {
                m[w]
            },
    )
}

/// Occurrences among the first `k` words sit below `k`, one per word at
/// most, and one exists only where the word is.
proof fn lemma_occurrences(ws: Seq<(Seq<u8>, u32)>, w: Seq<u8>, k: int)
    requires
        0 <= k <= ws.len(),
        forall|i: int| 0 <= i < ws.len() ==> #[trigger] ws[i].1 == i,
    ensures
        occurrences(ws, w, k).len() <= k,
        forall|j: int| 0 <= j < occurrences(ws, w, k).len() ==> #[trigger] occurrences(ws, w, k)[j] < k,
        occurrences(ws, w, k).len() > 0 ==> exists|i: int| 0 <= i < k && #[trigger] ws[i].0 == w,
    decreases k,
{
    if k > 0 {
        lemma_occurrences(ws, w, k - 1);
        assert(ws[k - 1].1 == k - 1);
        if occurrences(ws, w, k - 1).len() > 0 {
            let i = choose|i: int| 0 <= i < k - 1 && #[trigger] ws[i].0 == w;
            assert(ws[i].0 == w);
        }
    }
}

/// One more position: its delta from the last, or itself when first.
proof fn lemma_pos_deltas_push(p: Seq<u32>, x: u32)
    ensures
        p.len() > 0 ==> pos_deltas(p.push(x)) == pos_deltas(p).push(x.saturating_sub(p.last())),
        p.len() == 0 ==> pos_deltas(p.push(x)) == seq![x],
{
    if p.len() > 0 {
        assert(pos_deltas(p.push(x)) =~= pos_deltas(p).push(x.saturating_sub(p.last())));
    } else {
        assert(pos_deltas(p.push(x)) =~= seq![x]);
    }
}

/// Word slot `t`'s lists stand as the first `k` words of the document
/// left them: with the document added where the term is sampled and
/// occurs, as before otherwise.
spec fn slot_after_words(
    acc: Postings,
    o: Postings,
    ws: Seq<(Seq<u8>, u32)>,
    k: int,
    doc: u32,
    seed: u64,
    d: u64,
    t: int,
) -> bool {
    let w = acc.terms@[t]@;
    let oc = occurrences(ws, w, k);
    let bd = if t < o.terms@.len() {
        o.docs@[t]@
    } else {
        Seq::empty()
    };
    let bf = if t < o.terms@.len() {
        o.freqs@[t]@
    } else {
        Seq::empty()
    };
    let bp = if t < o.terms@.len() {
        o.posdeltas@[t]@
    } else {
        Seq::empty()
    };
    if sampled(w, seed, d) && oc.len() > 0 {
        &&& acc.docs@[t]@ == bd.push(doc)
        &&& acc.freqs@[t]@ == bf.push(oc.len() as u32)
        &&& acc.posdeltas@[t]@ == bp + pos_deltas(oc)
        &&& acc.last_pos@[t] == oc.last()
    } else {
        &&& t < o.terms@.len()
        &&& acc.docs@[t]@ == bd
        &&& acc.freqs@[t]@ == bf
        &&& acc.posdeltas@[t]@ == bp
    }
}

/// Trigram slot `t`'s documents as the first `k` trigrams left them.
spec fn slot_after_trigrams(
    acc: Postings,
    o: Postings,
    tris: Seq<Seq<u8>>,
    k: int,
    doc: u32,
    seed: u64,
    d: u64,
    t: int,
) -> bool {
    let w = acc.tri_terms@[t]@;
    let bd = if t < o.tri_terms@.len() {
        o.tri_docs@[t]@
    } else {
        Seq::empty()
    };
    if sampled(w, seed, d) && exists|i: int| 0 <= i < k && #[trigger] tris[i] == w {
        acc.tri_docs@[t]@ == bd.push(doc)
    } else {
        t < o.tri_terms@.len() && acc.tri_docs@[t]@ == bd
    }
}

impl Postings {
    /// The word map reads only the word fields.
    proof fn lemma_same_words(&self, other: &Postings)
        requires
            self.terms@ == other.terms@,
            self.docs@ == other.docs@,
            self.freqs@ == other.freqs@,
            self.posdeltas@ == other.posdeltas@,
        ensures
            self.word_map() == other.word_map(),
    {
        assert(self.word_map() =~= other.word_map());
    }
}

/// Add document `doc`: each sampled word gains the document once, with the
/// number of its occurrences and their positions as distances from the one
/// before (the first as is); each sampled trigram gains the document once;
/// nothing else changes.
#[verifier::spinoff_prover]
#[verifier::rlimit(100)]
pub fn add_doc(acc: &mut Postings, doc: u32, bytes: &[u8], seed: u64, d_words: u64, d_trigrams: u64)
    requires
        old(acc).wf(),
        old(acc).docs_seen() <= doc < u32::MAX,
        bytes@.len() <= MAX_FILE_BYTES,
    ensures
        final(acc).wf(),
        final(acc).docs_seen() == doc + 1,
        final(acc).word_map() == words_after(old(acc).word_map(), bytes@, doc, seed, d_words),
        final(acc).trigram_map() == trigrams_after(
            old(acc).trigram_map(),
            bytes@,
            doc,
            seed,
            d_trigrams,
        ),
{
    let ghost o = *acc;
    acc.next_doc = doc + 1;
    proof {
        assert forall|t: int| 0 <= t < acc.terms@.len() implies #[trigger] Postings::term_ok(
            acc.docs@[t]@,
            acc.freqs@[t]@,
            acc.posdeltas@[t]@,
            acc.next_doc,
        ) by {
            assert(Postings::term_ok(
                old(acc).docs@[t]@,
                old(acc).freqs@[t]@,
                old(acc).posdeltas@[t]@,
                old(acc).next_doc,
            ));
        }
        assert forall|t: int| 0 <= t < acc.tri_terms@.len() implies strictly_increasing(
            #[trigger] acc.tri_docs@[t]@,
        ) && below(acc.tri_docs@[t]@, acc.next_doc) by {
            assert(strictly_increasing(old(acc).tri_docs@[t]@));
        }
    }
    let words = for_each_word(bytes);
    let ghost ws = words_view(words@);
    proof {
        lemma_words_from_positions(bytes@, 0, 0);
        assert forall|k: int| 0 <= k < words@.len() implies #[trigger] words@[k].1 == k by {
            assert(ws[k] == (words@[k].0@, words@[k].1));
            assert(words_from(bytes@, 0, 0)[k].1 == k);
        }
        assert forall|k: int| 0 <= k < ws.len() implies #[trigger] ws[k].1 == k by {
            assert(ws[k] == (words@[k].0@, words@[k].1));
        }
        assert forall|t: int| 0 <= t < acc.terms@.len() implies slot_after_words(
            *acc,
            o,
            ws,
            0,
            doc,
            seed,
            d_words,
            t,
        ) by {}
    }
    let mut k: usize = 0;
    while k < words.len()
        invariant
            acc.wf(),
            acc.next_doc == doc + 1,
            o.wf(),
            o.next_doc <= doc,
            k <= words@.len(),
            words@.len() <= MAX_FILE_BYTES,
            ws == words_view(words@),
            ws.len() == words@.len(),
            forall|i: int| 0 <= i < words@.len() ==> #[trigger] words@[i].1 == i,
            forall|i: int| 0 <= i < ws.len() ==> #[trigger] ws[i].1 == i,
            acc.terms@.len() >= o.terms@.len(),
            forall|t: int| 0 <= t < o.terms@.len() ==> #[trigger] acc.terms@[t] == o.terms@[t],
            forall|t: int|
                o.terms@.len() <= t < acc.terms@.len() ==> sampled(
                    #[trigger] acc.terms@[t]@,
                    seed,
                    d_words,
                ) && occurrences(ws, acc.terms@[t]@, k as int).len() > 0,
            forall|t: int|
                0 <= t < acc.terms@.len() ==> #[trigger] slot_after_words(
                    *acc,
                    o,
                    ws,
                    k as int,
                    doc,
                    seed,
                    d_words,
                    t,
                ),
            forall|i: int|
                0 <= i < k && sampled(#[trigger] ws[i].0, seed, d_words) ==> exists|t: int|
                    0 <= t < acc.terms@.len() && #[trigger] acc.terms@[t]@ == ws[i].0,
            acc.tri_terms@ == o.tri_terms@,
            acc.tri_docs@ == o.tri_docs@,
        decreases words@.len() - k,
    {
        let pos = words[k].1;
        let ghost w = ws[k as int].0;
        proof {
            assert(ws[k as int] == (words@[k as int].0@, words@[k as int].1));
            assert forall|x: Seq<u8>| x != w implies occurrences(ws, x, k + 1) == #[trigger] occurrences(
                ws,
                x,
                k as int,
            ) by {}
            assert(occurrences(ws, w, k + 1) == occurrences(ws, w, k as int).push(k as u32));
            lemma_occurrences(ws, w, k as int);
            lemma_occurrences(ws, w, k + 1);
        }
        if keep_term(words[k].0.as_slice(), seed, d_words) {
            let ghost before = *acc;
            let t = acc.word_slot(words[k].0.clone());
            let ghost slotted = *acc;
            let ghost oc = occurrences(ws, w, k as int);
            proof {
                if t < before.terms@.len() {
                    assert(before.terms@[t as int]@ == w);
                    assert(slot_after_words(before, o, ws, k as int, doc, seed, d_words, t as int));
                } else {
                    if oc.len() > 0 {
                        let i = choose|i: int| 0 <= i < k && #[trigger] ws[i].0 == w;
                        let u = choose|u: int| 0 <= u < before.terms@.len() && #[trigger] before.terms@[u]@ == ws[i].0;
                        assert(before.terms@[u]@ != w);
                    }
                    if (t as int) < o.terms@.len() {
                        assert(before.terms@[t as int] == o.terms@[t as int]);
                    }
                }
                assert(Postings::term_ok(acc.docs@[t as int]@, acc.freqs@[t as int]@, acc.posdeltas@[t as int]@, acc.next_doc));
                if (t as int) < o.terms@.len() {
                    assert(Postings::term_ok(o.docs@[t as int]@, o.freqs@[t as int]@, o.posdeltas@[t as int]@, o.next_doc));
                }
            }
            let ghost bd = if (t as int) < o.terms@.len() {
                o.docs@[t as int]@
            } else {
                Seq::empty()
            };
            let ghost bf = if (t as int) < o.terms@.len() {
                o.freqs@[t as int]@
            } else {
                Seq::empty()
            };
            let ghost bp = if (t as int) < o.terms@.len() {
                o.posdeltas@[t as int]@
            } else {
                Seq::empty()
            };
            proof {
                if t < before.terms@.len() {
                    assert(slotted.docs@[t as int] == before.docs@[t as int]);
                    assert(slotted.freqs@[t as int] == before.freqs@[t as int]);
                    assert(slotted.posdeltas@[t as int] == before.posdeltas@[t as int]);
                    assert(slotted.last_pos@[t as int] == before.last_pos@[t as int]);
                } else {
                    assert(oc.len() == 0);
                    assert(slotted.docs@[t as int]@ =~= bd);
                    assert(slotted.freqs@[t as int]@ =~= bf);
                    assert(slotted.posdeltas@[t as int]@ =~= bp);
                }
                assert(oc.len() > 0 ==> slotted.docs@[t as int]@ == bd.push(doc) && slotted.freqs@[
                    t as int]@ == bf.push(oc.len() as u32) && slotted.posdeltas@[t as int]@ == bp
                    + pos_deltas(oc) && slotted.last_pos@[t as int] == oc.last());
                assert(oc.len() == 0 ==> slotted.docs@[t as int]@ == bd && slotted.freqs@[t as int]@
                    == bf && slotted.posdeltas@[t as int]@ == bp);
            }
            let n = acc.docs[t].len();
            if n > 0 && acc.docs[t][n - 1] == doc {
                proof {
                    if !(oc.len() > 0) {
                        if (t as int) < o.terms@.len() {
                            assert(slotted.docs@[t as int]@ == o.docs@[t as int]@);
                            assert(o.docs@[t as int]@[n - 1] < o.next_doc);
                        }
                    }
                    assert(oc.len() > 0);
                    assert(slotted.freqs@[t as int]@.last() == oc.len() as u32);
                }
                let f = acc.freqs[t][n - 1];
                let d = pos.saturating_sub(acc.last_pos[t]);
                acc.freqs[t].set(n - 1, f + 1);
                acc.posdeltas[t].push(d);
                proof {
                    lemma_sum_bump_last(slotted.freqs@[t as int]@, (f + 1) as u32);
                    lemma_pos_deltas_push(oc, k as u32);
                    assert(acc.freqs@[t as int]@ == slotted.freqs@[t as int]@.update(n - 1, (f + 1) as u32));
                    assert(acc.posdeltas@[t as int]@ == slotted.posdeltas@[t as int]@.push(d));
                    assert(acc.docs@[t as int] == slotted.docs@[t as int]);
                    assert(d <= pos);
                    assert(below(acc.freqs@[t as int]@, u32::MAX));
                    assert(below(acc.posdeltas@[t as int]@, u32::MAX));
                    assert(acc.freqs@[t as int]@ =~= bf.push((oc.len() + 1) as u32));
                    assert(acc.posdeltas@[t as int]@ =~= bp + pos_deltas(oc.push(k as u32)));
                    assert(acc.docs@[t as int]@ == bd.push(doc));
                }
            } else {
                proof {
                    if oc.len() > 0 {
                        assert(slotted.docs@[t as int]@.last() == doc);
                    }
                    assert(oc.len() == 0);
                    lemma_push_increasing(acc.docs@[t as int]@, doc);
                    lemma_sum_push(acc.freqs@[t as int]@, 1);
                    lemma_pos_deltas_push(oc, k as u32);
                }
                acc.docs[t].push(doc);
                acc.freqs[t].push(1);
                acc.posdeltas[t].push(pos);
                proof {
                    assert(acc.docs@[t as int]@ == slotted.docs@[t as int]@.push(doc));
                    assert(acc.freqs@[t as int]@ == slotted.freqs@[t as int]@.push(1));
                    assert(acc.posdeltas@[t as int]@ == slotted.posdeltas@[t as int]@.push(pos));
                    assert(below(acc.docs@[t as int]@, acc.next_doc));
                    assert(below(acc.freqs@[t as int]@, u32::MAX));
                    assert(below(acc.posdeltas@[t as int]@, u32::MAX));
                    assert(oc.push(k as u32) =~= seq![k as u32]);
                    assert(acc.freqs@[t as int]@ == bf.push((oc.len() + 1) as u32));
                    assert(acc.posdeltas@[t as int]@ =~= bp + pos_deltas(oc.push(k as u32)));
                    assert(acc.docs@[t as int]@ == bd.push(doc));
                }
            }
            let ghost pre_last = *acc;
            acc.last_pos.set(t, pos);
            proof {
                let ocn = occurrences(ws, w, k + 1);
                assert(ocn == oc.push(k as u32));
                assert(acc.terms@ == slotted.terms@);
                assert(Postings::term_ok(acc.docs@[t as int]@, acc.freqs@[t as int]@, acc.posdeltas@[t as int]@, acc.next_doc));
                assert forall|u: int| 0 <= u < acc.terms@.len() implies #[trigger] Postings::term_ok(
                    acc.docs@[u]@,
                    acc.freqs@[u]@,
                    acc.posdeltas@[u]@,
                    acc.next_doc,
                ) by {
                    if u != t {
                        assert(Postings::term_ok(
                            slotted.docs@[u]@,
                            slotted.freqs@[u]@,
                            slotted.posdeltas@[u]@,
                            slotted.next_doc,
                        ));
                    }
                }
                assert(acc.docs@ == pre_last.docs@ && acc.freqs@ == pre_last.freqs@
                    && acc.posdeltas@ == pre_last.posdeltas@);
                assert(acc.docs@[t as int]@ == bd.push(doc));
                assert(acc.freqs@[t as int]@ == bf.push(ocn.len() as u32));
                assert(acc.posdeltas@[t as int]@ == bp + pos_deltas(ocn));
                assert(acc.last_pos@[t as int] == ocn.last());
                assert(acc.terms@[t as int]@ == w);
                assert(sampled(w, seed, d_words));
                assert(slot_after_words(*acc, o, ws, k + 1, doc, seed, d_words, t as int));
                assert forall|u: int| 0 <= u < acc.terms@.len() implies #[trigger] slot_after_words(
                    *acc,
                    o,
                    ws,
                    k + 1,
                    doc,
                    seed,
                    d_words,
                    u,
                ) by {
                    if u != t {
                        assert(u < before.terms@.len());
                        assert(slot_after_words(before, o, ws, k as int, doc, seed, d_words, u));
                        assert(acc.terms@[u] == before.terms@[u]);
                        if u < t {
                            assert(acc.terms@[u]@ != acc.terms@[t as int]@);
                        } else {
                            assert(acc.terms@[t as int]@ != acc.terms@[u]@);
                        }
                        assert(occurrences(ws, acc.terms@[u]@, k + 1) == occurrences(
                            ws,
                            acc.terms@[u]@,
                            k as int,
                        ));
                        assert(acc.docs@[u] == before.docs@[u]);
                        assert(acc.freqs@[u] == before.freqs@[u]);
                        assert(acc.posdeltas@[u] == before.posdeltas@[u]);
                        assert(acc.last_pos@[u] == before.last_pos@[u]);
                    }
                }
                assert forall|u: int|
                    o.terms@.len() <= u < acc.terms@.len() implies sampled(
                    #[trigger] acc.terms@[u]@,
                    seed,
                    d_words,
                ) && occurrences(ws, acc.terms@[u]@, k + 1).len() > 0 by {
                    if u != t {
                        assert(acc.terms@[u] == before.terms@[u]);
                        assert(occurrences(ws, before.terms@[u]@, k as int).len() > 0);
                        if before.terms@[u]@ != w {
                            assert(occurrences(ws, before.terms@[u]@, k + 1) == occurrences(
                                ws,
                                before.terms@[u]@,
                                k as int,
                            ));
                        }
                    }
                }
                assert forall|i: int|
                    0 <= i < k + 1 && sampled(#[trigger] ws[i].0, seed, d_words) implies exists|tt: int|
                        0 <= tt < acc.terms@.len() && #[trigger] acc.terms@[tt]@ == ws[i].0 by {
                    if i < k {
                        let tt = choose|tt: int| 0 <= tt < before.terms@.len() && #[trigger] before.terms@[tt]@ == ws[i].0;
                        assert(acc.terms@[tt] == before.terms@[tt]);
                    } else {
                        assert(acc.terms@[t as int]@ == ws[i].0);
                    }
                }
            }
        } else {
            proof {
                assert forall|u: int| 0 <= u < acc.terms@.len() implies #[trigger] slot_after_words(
                    *acc,
                    o,
                    ws,
                    k + 1,
                    doc,
                    seed,
                    d_words,
                    u,
                ) by {
                    assert(slot_after_words(*acc, o, ws, k as int, doc, seed, d_words, u));
                }
                assert forall|u: int|
                    o.terms@.len() <= u < acc.terms@.len() implies sampled(
                    #[trigger] acc.terms@[u]@,
                    seed,
                    d_words,
                ) && occurrences(ws, acc.terms@[u]@, k + 1).len() > 0 by {
                    if acc.terms@[u]@ != w {
                        assert(occurrences(ws, acc.terms@[u]@, k + 1) == occurrences(
                            ws,
                            acc.terms@[u]@,
                            k as int,
                        ));
                    }
                }
            }
        }
        k = k + 1;
    }
    proof {
        let n = ws.len() as int;
        assert(ws == words_from(bytes@, 0, 0));
        let target = words_after(o.word_map(), bytes@, doc, seed, d_words);
        assert forall|x: Seq<u8>| #[trigger] acc.word_map().contains_key(x) <==> target.contains_key(x) by {
            if acc.word_map().contains_key(x) {
                let t = choose|t: int| 0 <= t < acc.terms@.len() && #[trigger] acc.terms@[t]@ == x;
                if t < o.terms@.len() {
                    o.lemma_word_map_at(t);
                    assert(acc.terms@[t] == o.terms@[t]);
                }
            }
            if target.contains_key(x) {
                if o.word_map().contains_key(x) {
                    let t = choose|t: int| 0 <= t < o.terms@.len() && #[trigger] o.terms@[t]@ == x;
                    assert(acc.terms@[t] == o.terms@[t]);
                    acc.lemma_word_map_at(t);
                } else {
                    lemma_occurrences(ws, x, n);
                    let i = choose|i: int| 0 <= i < n && #[trigger] ws[i].0 == x;
                    let t = choose|t: int| 0 <= t < acc.terms@.len() && #[trigger] acc.terms@[t]@ == ws[i].0;
                    acc.lemma_word_map_at(t);
                }
            }
        }
        assert forall|x: Seq<u8>| #[trigger] acc.word_map().contains_key(x) implies acc.word_map()[x]
            == target[x] by {
            let t = choose|t: int| 0 <= t < acc.terms@.len() && #[trigger] acc.terms@[t]@ == x;
            acc.lemma_word_map_at(t);
            assert(slot_after_words(*acc, o, ws, n, doc, seed, d_words, t));
            if t < o.terms@.len() {
                assert(acc.terms@[t] == o.terms@[t]);
                o.lemma_word_map_at(t);
            } else {
                if o.word_map().contains_key(x) {
                    let u = choose|u: int| 0 <= u < o.terms@.len() && #[trigger] o.terms@[u]@ == x;
                    assert(acc.terms@[u] == o.terms@[u]);
                    assert(acc.terms@[u]@ != acc.terms@[t]@);
                }
            }
        }
        assert(acc.word_map() =~= target);
    }
    let ghost after_words = *acc;
    let tris = trigrams(bytes);
    let ghost ts = tris@.map_values(|a: [u8; 3]| a@);
    proof {
        assert forall|t: int| 0 <= t < acc.tri_terms@.len() implies #[trigger] slot_after_trigrams(
            *acc,
            o,
            ts,
            0,
            doc,
            seed,
            d_trigrams,
            t,
        ) by {}
    }
    let mut k: usize = 0;
    while k < tris.len()
        invariant
            acc.wf(),
            acc.next_doc == doc + 1,
            o.wf(),
            o.next_doc <= doc,
            k <= tris@.len(),
            ts == tris@.map_values(|a: [u8; 3]| a@),
            acc.terms@ == after_words.terms@,
            acc.docs@ == after_words.docs@,
            acc.freqs@ == after_words.freqs@,
            acc.posdeltas@ == after_words.posdeltas@,
            acc.tri_terms@.len() >= o.tri_terms@.len(),
            forall|t: int| 0 <= t < o.tri_terms@.len() ==> #[trigger] acc.tri_terms@[t] == o.tri_terms@[t],
            forall|t: int|
                o.tri_terms@.len() <= t < acc.tri_terms@.len() ==> sampled(
                    #[trigger] acc.tri_terms@[t]@,
                    seed,
                    d_trigrams,
                ) && exists|i: int| 0 <= i < k && #[trigger] ts[i] == acc.tri_terms@[t]@,
            forall|t: int|
                0 <= t < acc.tri_terms@.len() ==> #[trigger] slot_after_trigrams(
                    *acc,
                    o,
                    ts,
                    k as int,
                    doc,
                    seed,
                    d_trigrams,
                    t,
                ),
            forall|i: int|
                0 <= i < k && sampled(#[trigger] ts[i], seed, d_trigrams) ==> exists|t: int|
                    0 <= t < acc.tri_terms@.len() && #[trigger] acc.tri_terms@[t]@ == ts[i],
        decreases tris@.len() - k,
    {
        let ghost x3 = ts[k as int];
        proof {
            assert(x3 == tris@[k as int]@);
        }
        if keep_term(tris[k].as_slice(), seed, d_trigrams) {
            let ghost before = *acc;
            let t = acc.trigram_slot(&tris[k]);
            let ghost slotted = *acc;
            let ghost seen = exists|i: int| 0 <= i < k && #[trigger] ts[i] == x3;
            proof {
                if t < before.tri_terms@.len() {
                    assert(slot_after_trigrams(before, o, ts, k as int, doc, seed, d_trigrams, t as int));
                } else {
                    if seen {
                        let i = choose|i: int| 0 <= i < k && #[trigger] ts[i] == x3;
                        let u = choose|u: int| 0 <= u < before.tri_terms@.len() && #[trigger] before.tri_terms@[u]@ == ts[i];
                        assert(before.tri_terms@[u]@ != x3);
                    }
                    if (t as int) < o.tri_terms@.len() {
                        assert(before.tri_terms@[t as int] == o.tri_terms@[t as int]);
                    }
                }
                if (t as int) < o.tri_terms@.len() {
                    assert(below(o.tri_docs@[t as int]@, o.next_doc));
                }
            }
            let ghost bd = if (t as int) < o.tri_terms@.len() {
                o.tri_docs@[t as int]@
            } else {
                Seq::empty()
            };
            proof {
                if t < before.tri_terms@.len() {
                    assert(slotted.tri_docs@[t as int] == before.tri_docs@[t as int]);
                } else {
                    assert(!seen);
                    assert(slotted.tri_docs@[t as int]@ =~= bd);
                }
                assert(seen ==> slotted.tri_docs@[t as int]@ == bd.push(doc));
                assert(!seen ==> slotted.tri_docs@[t as int]@ == bd);
            }
            let n = acc.tri_docs[t].len();
            if n == 0 || acc.tri_docs[t][n - 1] != doc {
                proof {
                    if seen {
                        assert(slotted.tri_docs@[t as int]@.last() == doc);
                    }
                    assert(strictly_increasing(acc.tri_docs@[t as int]@));
                    lemma_push_increasing(acc.tri_docs@[t as int]@, doc);
                }
                acc.tri_docs[t].push(doc);
                proof {
                    assert forall|u: int| 0 <= u < acc.tri_terms@.len() implies strictly_increasing(
                        #[trigger] acc.tri_docs@[u]@,
                    ) && below(acc.tri_docs@[u]@, acc.next_doc) by {
                        if u != t {
                            assert(strictly_increasing(slotted.tri_docs@[u]@));
                        }
                    }
                }
            } else {
                proof {
                    if !seen {
                        if (t as int) < o.tri_terms@.len() {
                            assert(slotted.tri_docs@[t as int]@ == o.tri_docs@[t as int]@);
                            assert(o.tri_docs@[t as int]@[n - 1] < o.next_doc);
                        }
                    }
                    assert(seen);
                }
            }
            proof {
                assert(acc.tri_terms@ == slotted.tri_terms@);
                assert(acc.tri_docs@[t as int]@ == bd.push(doc));
                assert(acc.tri_terms@[t as int]@ == x3);
                assert(sampled(x3, seed, d_trigrams));
                assert(ts[k as int] == x3);
                assert(exists|i: int| 0 <= i < k + 1 && #[trigger] ts[i] == x3);
                assert(slot_after_trigrams(*acc, o, ts, k + 1, doc, seed, d_trigrams, t as int));
                assert forall|u: int| 0 <= u < acc.tri_terms@.len() implies #[trigger] slot_after_trigrams(
                    *acc,
                    o,
                    ts,
                    k + 1,
                    doc,
                    seed,
                    d_trigrams,
                    u,
                ) by {
                    if u != t {
                        assert(u < before.tri_terms@.len());
                        assert(slot_after_trigrams(before, o, ts, k as int, doc, seed, d_trigrams, u));
                        assert(acc.tri_terms@[u] == before.tri_terms@[u]);
                        if u < t {
                            assert(acc.tri_terms@[u]@ != acc.tri_terms@[t as int]@);
                        } else {
                            assert(acc.tri_terms@[t as int]@ != acc.tri_terms@[u]@);
                        }
                        let y = acc.tri_terms@[u]@;
                        if exists|i: int| 0 <= i < k + 1 && #[trigger] ts[i] == y {
                            let i = choose|i: int| 0 <= i < k + 1 && #[trigger] ts[i] == y;
                            assert(i < k);
                        }
                        assert(acc.tri_docs@[u] == before.tri_docs@[u]);
                    }
                }
                assert forall|u: int|
                    o.tri_terms@.len() <= u < acc.tri_terms@.len() implies sampled(
                    #[trigger] acc.tri_terms@[u]@,
                    seed,
                    d_trigrams,
                ) && exists|i: int| 0 <= i < k + 1 && #[trigger] ts[i] == acc.tri_terms@[u]@ by {
                    if u != t {
                        assert(acc.tri_terms@[u] == before.tri_terms@[u]);
                        let i = choose|i: int| 0 <= i < k && #[trigger] ts[i] == before.tri_terms@[u]@;
                        assert(ts[i] == acc.tri_terms@[u]@);
                    } else {
                        assert(ts[k as int] == acc.tri_terms@[u]@);
                    }
                }
                assert forall|i: int|
                    0 <= i < k + 1 && sampled(#[trigger] ts[i], seed, d_trigrams) implies exists|tt: int|
                        0 <= tt < acc.tri_terms@.len() && #[trigger] acc.tri_terms@[tt]@ == ts[i] by {
                    if i < k {
                        let tt = choose|tt: int| 0 <= tt < before.tri_terms@.len() && #[trigger] before.tri_terms@[tt]@ == ts[i];
                        assert(acc.tri_terms@[tt] == before.tri_terms@[tt]);
                    } else {
                        assert(acc.tri_terms@[t as int]@ == ts[i]);
                    }
                }
            }
        } else {
            proof {
                assert forall|u: int| 0 <= u < acc.tri_terms@.len() implies #[trigger] slot_after_trigrams(
                    *acc,
                    o,
                    ts,
                    k + 1,
                    doc,
                    seed,
                    d_trigrams,
                    u,
                ) by {
                    assert(slot_after_trigrams(*acc, o, ts, k as int, doc, seed, d_trigrams, u));
                    let y = acc.tri_terms@[u]@;
                    if exists|i: int| 0 <= i < k + 1 && #[trigger] ts[i] == y {
                        let i = choose|i: int| 0 <= i < k + 1 && #[trigger] ts[i] == y;
                        if i == k {
                            assert(!sampled(y, seed, d_trigrams));
                        }
                    }
                }
                assert forall|u: int|
                    o.tri_terms@.len() <= u < acc.tri_terms@.len() implies sampled(
                    #[trigger] acc.tri_terms@[u]@,
                    seed,
                    d_trigrams,
                ) && exists|i: int| 0 <= i < k + 1 && #[trigger] ts[i] == acc.tri_terms@[u]@ by {
                    let i = choose|i: int| 0 <= i < k && #[trigger] ts[i] == acc.tri_terms@[u]@;
                    assert(ts[i] == acc.tri_terms@[u]@);
                }
            }
        }
        k = k + 1;
    }
    proof {
        acc.lemma_same_words(&after_words);
        let n = ts.len() as int;
        let target = trigrams_after(o.trigram_map(), bytes@, doc, seed, d_trigrams);
        assert forall|x: Seq<u8>| has_trigram(bytes@, x) <==> exists|i: int| 0 <= i < n && #[trigger] ts[i] == x by {
            if has_trigram(bytes@, x) {
                let i = choose|i: int| 0 <= i && i + 3 <= bytes@.len() && #[trigger] bytes@.subrange(i, i + 3) == x;
                assert(ts[i] == tris@[i]@);
            }
            if exists|i: int| 0 <= i < n && #[trigger] ts[i] == x {
                let i = choose|i: int| 0 <= i < n && #[trigger] ts[i] == x;
                assert(ts[i] == tris@[i]@);
                assert(bytes@.subrange(i, i + 3) == x);
            }
        }
        assert forall|x: Seq<u8>| #[trigger] acc.trigram_map().contains_key(x) <==> target.contains_key(x) by {
            if acc.trigram_map().contains_key(x) {
                let t = choose|t: int| 0 <= t < acc.tri_terms@.len() && #[trigger] acc.tri_terms@[t]@ == x;
                if t < o.tri_terms@.len() {
                    o.lemma_trigram_map_at(t);
                    assert(acc.tri_terms@[t] == o.tri_terms@[t]);
                }
            }
            if target.contains_key(x) {
                if o.trigram_map().contains_key(x) {
                    let t = choose|t: int| 0 <= t < o.tri_terms@.len() && #[trigger] o.tri_terms@[t]@ == x;
                    assert(acc.tri_terms@[t] == o.tri_terms@[t]);
                    acc.lemma_trigram_map_at(t);
                } else {
                    let i = choose|i: int| 0 <= i < n && #[trigger] ts[i] == x;
                    let t = choose|t: int| 0 <= t < acc.tri_terms@.len() && #[trigger] acc.tri_terms@[t]@ == ts[i];
                    acc.lemma_trigram_map_at(t);
                }
            }
        }
        assert forall|x: Seq<u8>| #[trigger] acc.trigram_map().contains_key(x) implies acc.trigram_map()[x]
            == target[x] by {
            let t = choose|t: int| 0 <= t < acc.tri_terms@.len() && #[trigger] acc.tri_terms@[t]@ == x;
            acc.lemma_trigram_map_at(t);
            assert(slot_after_trigrams(*acc, o, ts, n, doc, seed, d_trigrams, t));
            if t < o.tri_terms@.len() {
                assert(acc.tri_terms@[t] == o.tri_terms@[t]);
                o.lemma_trigram_map_at(t);
            } else {
                if o.trigram_map().contains_key(x) {
                    let u = choose|u: int| 0 <= u < o.tri_terms@.len() && #[trigger] o.tri_terms@[u]@ == x;
                    assert(acc.tri_terms@[u] == o.tri_terms@[u]);
                    assert(acc.tri_terms@[u]@ != acc.tri_terms@[t]@);
                }
            }
        }
        assert(acc.trigram_map() =~= target);
    }
}

impl Postings {
    /// How many word terms there are.
    pub fn word_count(&self) -> (r: usize)
        requires
            self.wf(),
        ensures
            r == self.word_map().dom().len(),
    {
        proof {
            let ks = key_views(self.terms@);
            assert(ks.no_duplicates()) by {
                assert forall|i: int, j: int| 0 <= i < ks.len() && 0 <= j < ks.len() && i != j implies ks[i]
                    != ks[j] by {
                    if i < j {
                        assert(self.terms@[i]@ != self.terms@[j]@);
                    } else {
                        assert(self.terms@[j]@ != self.terms@[i]@);
                    }
                }
            }
            ks.unique_seq_to_set();
            assert forall|w: Seq<u8>| #[trigger] self.word_map().dom().contains(w) <==> ks.to_set().contains(
                w,
            ) by {
                if self.word_map().dom().contains(w) {
                    let t = choose|t: int| 0 <= t < self.terms@.len() && #[trigger] self.terms@[t]@ == w;
                    assert(ks[t] == w);
                }
                if ks.to_set().contains(w) {
                    let t = choose|t: int| 0 <= t < ks.len() && ks[t] == w;
                    assert(self.terms@[t]@ == w);
                }
            }
            assert(self.word_map().dom() =~= ks.to_set());
        }
        self.terms.len()
    }

    /// How many trigrams there are.
    pub fn trigram_count(&self) -> (r: usize)
        requires
            self.wf(),
        ensures
            r == self.trigram_map().dom().len(),
    {
        proof {
            let ks = key_views(self.tri_terms@);
            assert(ks.no_duplicates()) by {
                assert forall|i: int, j: int| 0 <= i < ks.len() && 0 <= j < ks.len() && i != j implies ks[i]
                    != ks[j] by {
                    if i < j {
                        assert(self.tri_terms@[i]@ != self.tri_terms@[j]@);
                    } else {
                        assert(self.tri_terms@[j]@ != self.tri_terms@[i]@);
                    }
                }
            }
            ks.unique_seq_to_set();
            assert forall|w: Seq<u8>| #[trigger] self.trigram_map().dom().contains(w) <==> ks.to_set().contains(
                w,
            ) by {
                if self.trigram_map().dom().contains(w) {
                    let t = choose|t: int| 0 <= t < self.tri_terms@.len() && #[trigger] self.tri_terms@[t]@ == w;
                    assert(ks[t] == w);
                }
                if ks.to_set().contains(w) {
                    let t = choose|t: int| 0 <= t < ks.len() && ks[t] == w;
                    assert(self.tri_terms@[t]@ == w);
                }
            }
            assert(self.trigram_map().dom() =~= ks.to_set());
        }
        self.tri_terms.len()
    }
}

impl Postings {
    /// The word map holds exactly the word terms, each with its slot's
    /// lists: what `finish` lays out in byte order is the map's contents.
    pub proof fn lemma_word_terms_are_the_map(&self)
        requires
            self.wf(),
        ensures
            self.word_map().dom() == self.word_terms().to_set(),
            forall|t: int|
                0 <= t < self.word_terms().len() ==> #[trigger] self.word_map()[self.word_terms()[t]]
                    == self.word_lists(t),
    {
        let ks = self.word_terms();
        assert forall|t: int| 0 <= t < ks.len() implies #[trigger] self.word_map()[ks[t]] == self.word_lists(t) by {
            self.lemma_word_map_at(t);
        }
        assert forall|w: Seq<u8>| #[trigger] self.word_map().dom().contains(w) <==> ks.to_set().contains(w) by {
            if self.word_map().dom().contains(w) {
                let t = choose|t: int| 0 <= t < self.terms@.len() && #[trigger] self.terms@[t]@ == w;
                assert(ks[t] == w);
            }
            if ks.to_set().contains(w) {
                let t = choose|t: int| 0 <= t < ks.len() && ks[t] == w;
                self.lemma_word_map_at(t);
            }
        }
        assert(self.word_map().dom() =~= ks.to_set());
    }

    /// The trigram map holds exactly the trigrams, each with its slot's
    /// documents.
    pub proof fn lemma_trigram_terms_are_the_map(&self)
        requires
            self.wf(),
        ensures
            self.trigram_map().dom() == self.trigram_terms().to_set(),
            forall|t: int|
                0 <= t < self.trigram_terms().len() ==> #[trigger] self.trigram_map()[self.trigram_terms()[t]]
                    == self.trigram_docs(t),
    {
        let ks = self.trigram_terms();
        assert forall|t: int| 0 <= t < ks.len() implies #[trigger] self.trigram_map()[ks[t]] == self.trigram_docs(t) by {
            self.lemma_trigram_map_at(t);
        }
        assert forall|w: Seq<u8>| #[trigger] self.trigram_map().dom().contains(w) <==> ks.to_set().contains(w) by {
            if self.trigram_map().dom().contains(w) {
                let t = choose|t: int| 0 <= t < self.tri_terms@.len() && #[trigger] self.tri_terms@[t]@ == w;
                assert(ks[t] == w);
            }
            if ks.to_set().contains(w) {
                let t = choose|t: int| 0 <= t < ks.len() && ks[t] == w;
                self.lemma_trigram_map_at(t);
            }
        }
        assert(self.trigram_map().dom() =~= ks.to_set());
    }
}

/// How many distinct words and distinct trigrams a document has: what it
/// adds to the word and trigram posting counts before sampling.
pub fn distinct_terms(bytes: &[u8]) -> (r: (usize, usize))
    requires
        bytes@.len() <= MAX_FILE_BYTES,
    ensures
        r.0 == Set::new(|w: Seq<u8>| has_word(bytes@, w)).len(),
        r.1 == Set::new(|w: Seq<u8>| has_trigram(bytes@, w)).len(),
{
    let mut p = Postings::new();
    add_doc(&mut p, 0, bytes, 0, 1, 1);
    proof {
        assert forall|w: Seq<u8>| sampled(w, 0, 1) by {}
        assert(p.word_map().dom() =~= Set::new(|w: Seq<u8>| has_word(bytes@, w)));
        assert(p.trigram_map().dom() =~= Set::new(|w: Seq<u8>| has_trigram(bytes@, w)));
    }
    (p.word_count(), p.trigram_count())
}

/// The word postings of a corpus whose document `j` is `corpus[j]`, added
/// in order from an empty accumulator.
pub open spec fn corpus_words(corpus: Seq<Seq<u8>>, seed: u64, d: u64) -> Map<
    Seq<u8>,
    (Seq<u32>, Seq<u32>, Seq<u32>),
>
    decreases corpus.len(),
{
    if corpus.len() == 0 {
        Map::empty()
    } else {
        words_after(
            corpus_words(corpus.drop_last(), seed, d),
            corpus.last(),
            (corpus.len() - 1) as u32,
            seed,
            d,
        )
    }
}

/// The trigram postings of a corpus, as [`corpus_words`].
pub open spec fn corpus_trigrams(corpus: Seq<Seq<u8>>, seed: u64, d: u64) -> Map<Seq<u8>, Seq<u32>>
    decreases corpus.len(),
{
    if corpus.len() == 0 {
        Map::empty()
    } else {
        trigrams_after(
            corpus_trigrams(corpus.drop_last(), seed, d),
            corpus.last(),
            (corpus.len() - 1) as u32,
            seed,
            d,
        )
    }
}

/// `w` is a word of document `bytes`.
pub open spec fn has_word(bytes: Seq<u8>, w: Seq<u8>) -> bool {
    occurrences(words_from(bytes, 0, 0), w, words_from(bytes, 0, 0).len() as int).len() > 0
}

/// The documents of a corpus that have word `w`, when sampling keeps it.
pub open spec fn docs_with_word(corpus: Seq<Seq<u8>>, w: Seq<u8>, seed: u64, d: u64) -> Seq<u32>
    decreases corpus.len(),
{
    if corpus.len() == 0 {
        Seq::empty()
    } else {
        let prev = docs_with_word(corpus.drop_last(), w, seed, d);
        if sampled(w, seed, d) && has_word(corpus.last(), w) {
            prev.push((corpus.len() - 1) as u32)
        } else {
            prev
        }
    }
}

/// How often `w` occurs in each document of [`docs_with_word`].
pub open spec fn word_counts(corpus: Seq<Seq<u8>>, w: Seq<u8>, seed: u64, d: u64) -> Seq<u32>
    decreases corpus.len(),
{
    if corpus.len() == 0 {
        Seq::empty()
    } else {
        let prev = word_counts(corpus.drop_last(), w, seed, d);
        let ws = words_from(corpus.last(), 0, 0);
        if sampled(w, seed, d) && has_word(corpus.last(), w) {
            prev.push(occurrences(ws, w, ws.len() as int).len() as u32)
        } else {
            prev
        }
    }
}

/// The documents of a corpus that have trigram `w`, when sampling keeps it.
pub open spec fn docs_with_trigram(corpus: Seq<Seq<u8>>, w: Seq<u8>, seed: u64, d: u64) -> Seq<u32>
    decreases corpus.len(),
{
    if corpus.len() == 0 {
        Seq::empty()
    } else {
        let prev = docs_with_trigram(corpus.drop_last(), w, seed, d);
        if sampled(w, seed, d) && has_trigram(corpus.last(), w) {
            prev.push((corpus.len() - 1) as u32)
        } else {
            prev
        }
    }
}

/// A word is in the postings exactly when some document has it and
/// sampling keeps it; its document list is exactly those documents, in
/// order, and its frequencies are how often it occurs in each.
pub proof fn lemma_word_postings(corpus: Seq<Seq<u8>>, seed: u64, d: u64, w: Seq<u8>)
    ensures
        corpus_words(corpus, seed, d).contains_key(w) <==> docs_with_word(corpus, w, seed, d).len() > 0,
        corpus_words(corpus, seed, d).contains_key(w) ==> corpus_words(corpus, seed, d)[w].0
            == docs_with_word(corpus, w, seed, d) && corpus_words(corpus, seed, d)[w].1 == word_counts(
            corpus,
            w,
            seed,
            d,
        ),
        word_counts(corpus, w, seed, d).len() == docs_with_word(corpus, w, seed, d).len(),
    decreases corpus.len(),
{
    if corpus.len() > 0 {
        let prev = corpus.drop_last();
        lemma_word_postings(prev, seed, d, w);
        if !corpus_words(prev, seed, d).contains_key(w) {
            assert(docs_with_word(prev, w, seed, d) =~= Seq::<u32>::empty());
            assert(word_counts(prev, w, seed, d) =~= Seq::<u32>::empty());
        }
    }
}

/// A trigram is in the postings exactly when some document has it and
/// sampling keeps it; its document list is exactly those documents, in
/// order.
pub proof fn lemma_trigram_postings(corpus: Seq<Seq<u8>>, seed: u64, d: u64, w: Seq<u8>)
    ensures
        corpus_trigrams(corpus, seed, d).contains_key(w) <==> docs_with_trigram(corpus, w, seed, d).len()
            > 0,
        corpus_trigrams(corpus, seed, d).contains_key(w) ==> corpus_trigrams(corpus, seed, d)[w]
            == docs_with_trigram(corpus, w, seed, d),
    decreases corpus.len(),
{
    if corpus.len() > 0 {
        let prev = corpus.drop_last();
        lemma_trigram_postings(prev, seed, d, w);
        if !corpus_trigrams(prev, seed, d).contains_key(w) {
            assert(docs_with_trigram(prev, w, seed, d) =~= Seq::<u32>::empty());
        }
    }
}

/// `a` comes before `b` in byte order (a proper prefix comes first).
pub open spec fn bytes_lt(a: Seq<u8>, b: Seq<u8>) -> bool
    decreases a.len(),
{
    if b.len() == 0 {
        false
    } else if a.len() == 0 {
        true
    } else if a[0] != b[0] {
        a[0] < b[0]
    } else {
        bytes_lt(a.drop_first(), b.drop_first())
    }
}

/// Byte order is irreflexive.
proof fn lemma_bytes_lt_irrefl(a: Seq<u8>)
    ensures
        !bytes_lt(a, a),
    decreases a.len(),
{
    if a.len() > 0 {
        lemma_bytes_lt_irrefl(a.drop_first());
    }
}

/// Byte order is total: of two different strings one comes first.
proof fn lemma_bytes_lt_total(a: Seq<u8>, b: Seq<u8>)
    ensures
        a == b || bytes_lt(a, b) || bytes_lt(b, a),
    decreases a.len(),
{
    if a.len() > 0 && b.len() > 0 && a[0] == b[0] {
        lemma_bytes_lt_total(a.drop_first(), b.drop_first());
        if a.drop_first() == b.drop_first() {
            assert(a =~= seq![a[0]] + a.drop_first());
            assert(b =~= seq![b[0]] + b.drop_first());
        }
    } else if a.len() == 0 && b.len() == 0 {
        assert(a =~= b);
    }
}

/// Byte order is transitive.
proof fn lemma_bytes_lt_trans(a: Seq<u8>, b: Seq<u8>, c: Seq<u8>)
    requires
        bytes_lt(a, b),
        bytes_lt(b, c),
    ensures
        bytes_lt(a, c),
    decreases a.len(),
{
    if a.len() > 0 && b.len() > 0 && c.len() > 0 && a[0] == b[0] && b[0] == c[0] {
        lemma_bytes_lt_trans(a.drop_first(), b.drop_first(), c.drop_first());
    }
}

/// "Not after" in byte order is transitive.
proof fn lemma_bytes_le_trans(a: Seq<u8>, b: Seq<u8>, c: Seq<u8>)
    requires
        !bytes_lt(b, a),
        !bytes_lt(c, b),
    ensures
        !bytes_lt(c, a),
{
    if bytes_lt(c, a) {
        lemma_bytes_lt_total(a, b);
        if a == b {
        } else {
            lemma_bytes_lt_trans(c, a, b);
        }
    }
}

/// The slots in `r` come in byte order of their keys.
pub open spec fn slots_in_order(keys: Seq<Seq<u8>>, r: Seq<usize>) -> bool {
    forall|i: int, j: int|
        0 <= i < j < r.len() ==> !bytes_lt(#[trigger] keys[r[j] as int], #[trigger] keys[r[i] as int])
}

/// The views of the keys.
pub open spec fn key_views(keys: Seq<Vec<u8>>) -> Seq<Seq<u8>> {
    keys.map_values(|k: Vec<u8>| k@)
}

/// Whether `a` comes before `b` in byte order.
fn less_bytes(a: &[u8], b: &[u8]) -> (r: bool)
    ensures
        r == bytes_lt(a@, b@),
{
    let mut i: usize = 0;
    assert(a@.skip(0) =~= a@);
    assert(b@.skip(0) =~= b@);
    while i < a.len() && i < b.len()
        invariant
            i <= a@.len(),
            i <= b@.len(),
            forall|j: int| 0 <= j < i ==> a@[j] == b@[j],
            bytes_lt(a@, b@) == bytes_lt(a@.skip(i as int), b@.skip(i as int)),
        decreases a@.len() - i,
    {
        if a[i] != b[i] {
            return a[i] < b[i];
        }
        proof {
            assert(a@.skip(i as int).drop_first() =~= a@.skip(i + 1));
            assert(b@.skip(i as int).drop_first() =~= b@.skip(i + 1));
        }
        i = i + 1;
    }
    i < b.len()
}

/// The slots `idx` in byte order of their keys (stable), by merge sort.
fn sort_slots(keys: &Vec<Vec<u8>>, idx: Vec<usize>) -> (r: Vec<usize>)
    requires
        forall|i: int| 0 <= i < idx@.len() ==> #[trigger] idx@[i] < keys@.len(),
    ensures
        r@.len() == idx@.len(),
        forall|i: int| 0 <= i < r@.len() ==> #[trigger] r@[i] < keys@.len(),
        r@.to_multiset() == idx@.to_multiset(),
        slots_in_order(key_views(keys@), r@),
    decreases idx@.len(),
{
    broadcast use {vstd::seq_lib::to_multiset_build, vstd::seq_lib::lemma_multiset_commutative};

    let ghost kv = key_views(keys@);
    let n = idx.len();
    if n <= 1 {
        return idx;
    }
    let mid = n / 2;
    let mut left: Vec<usize> = Vec::new();
    let mut right: Vec<usize> = Vec::new();
    let mut i: usize = 0;
    while i < n
        invariant
            n == idx@.len(),
            i <= n,
            mid == n / 2,
            left@ == idx@.subrange(0, if i < mid { i as int } else { mid as int }),
            right@ == idx@.subrange(mid as int, if i < mid { mid as int } else { i as int }),
            forall|j: int| 0 <= j < idx@.len() ==> #[trigger] idx@[j] < keys@.len(),
        decreases n - i,
    {
        if i < mid {
            left.push(idx[i]);
        } else {
            right.push(idx[i]);
        }
        proof {
            assert(left@ =~= idx@.subrange(0, if i + 1 < mid { i + 1 } else { mid as int }));
            assert(right@ =~= idx@.subrange(mid as int, if i + 1 < mid { mid as int } else { i + 1 }));
        }
        i = i + 1;
    }
    proof {
        assert(idx@ =~= left@ + right@);
    }
    let ghost lm = left@.to_multiset();
    let ghost rm = right@.to_multiset();
    let left = sort_slots(keys, left);
    let right = sort_slots(keys, right);
    let mut out: Vec<usize> = Vec::new();
    let mut a: usize = 0;
    let mut b: usize = 0;
    proof {
        broadcast use {vstd::seq_lib::group_to_multiset_ensures, vstd::multiset::group_multiset_axioms};

        assert(left@.subrange(0, 0) =~= Seq::<usize>::empty());
        assert(right@.subrange(0, 0) =~= Seq::<usize>::empty());
        assert(out@ =~= Seq::<usize>::empty());
        assert(out@.to_multiset() =~= left@.subrange(0, 0).to_multiset().add(
            right@.subrange(0, 0).to_multiset(),
        ));
    }
    while a < left.len() || b < right.len()
        invariant
            kv == key_views(keys@),
            a <= left@.len(),
            b <= right@.len(),
            out@.len() == a + b,
            forall|j: int| 0 <= j < left@.len() ==> #[trigger] left@[j] < keys@.len(),
            forall|j: int| 0 <= j < right@.len() ==> #[trigger] right@[j] < keys@.len(),
            forall|j: int| 0 <= j < out@.len() ==> #[trigger] out@[j] < keys@.len(),
            slots_in_order(kv, left@),
            slots_in_order(kv, right@),
            slots_in_order(kv, out@),
            out@.to_multiset() == left@.subrange(0, a as int).to_multiset().add(
                right@.subrange(0, b as int).to_multiset(),
            ),
            a < left@.len() && out@.len() > 0 ==> !bytes_lt(
                kv[left@[a as int] as int],
                kv[out@.last() as int],
            ),
            b < right@.len() && out@.len() > 0 ==> !bytes_lt(
                kv[right@[b as int] as int],
                kv[out@.last() as int],
            ),
        decreases left@.len() + right@.len() - a - b,
    {
        let take_left = if a == left.len() {
            false
        } else if b == right.len() {
            true
        } else {
            !less_bytes(keys[right[b]].as_slice(), keys[left[a]].as_slice())
        };
        let ghost prev = out@;
        let ghost lms0 = left@.subrange(0, a as int).to_multiset();
        let ghost rms0 = right@.subrange(0, b as int).to_multiset();
        let pick = if take_left {
            left[a]
        } else {
            right[b]
        };
        proof {
            assert(kv[pick as int] == keys@[pick as int]@);
            if a < left@.len() {
                assert(kv[left@[a as int] as int] == keys@[left@[a as int] as int]@);
            }
            if b < right@.len() {
                assert(kv[right@[b as int] as int] == keys@[right@[b as int] as int]@);
            }
            if !take_left && a < left@.len() {
                let x = kv[right@[b as int] as int];
                let y = kv[left@[a as int] as int];
                assert(bytes_lt(x, y));
                if bytes_lt(y, x) {
                    lemma_bytes_lt_trans(x, y, x);
                    lemma_bytes_lt_irrefl(x);
                }
            }
            assert forall|i: int, j: int|
                0 <= i < j < prev.len() + 1 implies !bytes_lt(
                #[trigger] kv[prev.push(pick)[j] as int],
                #[trigger] kv[prev.push(pick)[i] as int],
            ) by {
                if j == prev.len() {
                    let last = kv[prev.last() as int];
                    let xi = kv[prev[i] as int];
                    if i < prev.len() - 1 {
                        assert(!bytes_lt(last, xi));
                        lemma_bytes_le_trans(xi, last, kv[pick as int]);
                    }
                } else {
                    assert(prev.push(pick)[j] == prev[j]);
                    assert(prev.push(pick)[i] == prev[i]);
                }
            }
        }
        out.push(pick);
        if take_left {
            proof {
                assert(left@.subrange(0, a + 1) =~= left@.subrange(0, a as int).push(left@[a as int]));
                if a + 1 < left@.len() {
                    assert(!bytes_lt(kv[left@[a + 1] as int], kv[left@[a as int] as int]));
                }
            }
            a = a + 1;
        } else {
            proof {
                assert(right@.subrange(0, b + 1) =~= right@.subrange(0, b as int).push(right@[b as int]));
                if b + 1 < right@.len() {
                    assert(!bytes_lt(kv[right@[b + 1] as int], kv[right@[b as int] as int]));
                }
            }
            b = b + 1;
        }
        proof {
            broadcast use vstd::multiset::group_multiset_axioms;

            assert(out@ =~= prev.push(pick));
            broadcast use vstd::seq_lib::group_to_multiset_ensures;

            let lms = left@.subrange(0, a as int).to_multiset();
            let rms = right@.subrange(0, b as int).to_multiset();
            assert(out@.to_multiset() =~= prev.to_multiset().insert(pick));
            if take_left {
                assert(lms =~= lms0.insert(pick));
                assert(rms =~= rms0);
            } else {
                assert(lms =~= lms0);
                assert(rms =~= rms0.insert(pick));
            }
            assert(out@.to_multiset() =~= lms.add(rms));
        }
    }
    proof {
        assert(left@.subrange(0, a as int) =~= left@);
        assert(right@.subrange(0, b as int) =~= right@);
    }
    out
}

/// `0..n`.
fn all_slots(n: usize) -> (r: Vec<usize>)
    ensures
        r@.len() == n,
        forall|i: int| 0 <= i < n ==> #[trigger] r@[i] == i,
{
    let mut r: Vec<usize> = Vec::new();
    let mut i: usize = 0;
    while i < n
        invariant
            i <= n,
            r@.len() == i,
            forall|j: int| 0 <= j < i ==> #[trigger] r@[j] == j,
        decreases n - i,
    {
        r.push(i);
        i = i + 1;
    }
    r
}

/// `0..n` as slots.
pub open spec fn slot_range(n: nat) -> Seq<usize> {
    Seq::new(n, |i: int| i as usize)
}

/// A copy of a list.
fn copy_list(src: &Vec<u32>) -> (r: Vec<u32>)
    ensures
        r@ == src@,
{
    let mut r: Vec<u32> = Vec::new();
    let mut i: usize = 0;
    while i < src.len()
        invariant
            i <= src@.len(),
            r@ == src@.subrange(0, i as int),
        decreases src@.len() - i,
    {
        r.push(src[i]);
        proof {
            assert(r@ =~= src@.subrange(0, i + 1));
        }
        i = i + 1;
    }
    assert(src@.subrange(0, src@.len() as int) =~= src@);
    r
}

/// A file size as stored: its length in bytes, `u32::MAX - 1` when that
/// does not fit.
pub open spec fn size_value(s: u64) -> u32 {
    if s <= u32::MAX {
        s as u32
    } else {
        (u32::MAX - 1) as u32
    }
}

/// A file size that fits in 32 bits is stored as it is; a larger one is
/// stored as 4294967294.
pub proof fn lemma_size_value(s: u64)
    ensures
        s <= 4294967295 ==> size_value(s) as u64 == s,
        s > 4294967295 ==> size_value(s) == 4294967294,
{
}

/// The earliest of the times, zero for none.
pub open spec fn min_time(s: Seq<u64>) -> u64
    decreases s.len(),
{
    if s.len() == 0 {
        0
    } else if s.len() == 1 {
        s[0]
    } else {
        let m = min_time(s.drop_last());
        if s.last() < m {
            s.last()
        } else {
            m
        }
    }
}

/// A modification time as stored: seconds after the earliest, `u32::MAX - 1`
/// when that does not fit.
pub open spec fn mtime_value(m: u64, earliest: u64) -> u32 {
    let d = if m >= earliest {
        m - earliest
    } else {
        0
    };
    if d <= u32::MAX {
        d as u32
    } else {
        (u32::MAX - 1) as u32
    }
}

/// The datasets of a corpus, from the postings of its `n_docs` documents
/// and their sizes and modification times: `words.docs` (each kept word's
/// documents), `trigrams.docs`, `words.freqs` and `words.posdeltas` (list
/// for list with `words.docs`), `docs.sizes` and `docs.mtimes` (one list,
/// one value per document). Terms come in byte order.
#[verifier::spinoff_prover]
#[verifier::rlimit(30)]
pub fn finish(acc: Postings, n_docs: u32, sizes: &[u64], mtimes: &[u64], source: &str) -> (r: Vec<
    Dataset,
>)
    requires
        acc.wf(),
        acc.docs_seen() <= n_docs,
    ensures
        r@.len() == 6,
        r@[0].meta.name@ == "words.docs"@ && r@[0].meta.kind == Kind::Sorted && r@[0].meta.universe
            == n_docs,
        r@[1].meta.name@ == "trigrams.docs"@ && r@[1].meta.kind == Kind::Sorted
            && r@[1].meta.universe == n_docs,
        r@[2].meta.name@ == "words.freqs"@ && r@[2].meta.kind == Kind::Unsorted
            && r@[2].meta.universe == u32::MAX,
        r@[3].meta.name@ == "words.posdeltas"@ && r@[3].meta.kind == Kind::Unsorted
            && r@[3].meta.universe == u32::MAX,
        r@[4].meta.name@ == "docs.sizes"@ && r@[4].meta.kind == Kind::Unsorted
            && r@[4].meta.universe == u32::MAX,
        r@[5].meta.name@ == "docs.mtimes"@ && r@[5].meta.kind == Kind::Unsorted
            && r@[5].meta.universe == u32::MAX,
        forall|d: int| 0 <= d < 6 ==> (#[trigger] r@[d]).meta.source@ == source@,
        r@[2].lists@.len() == r@[0].lists@.len(),
        r@[3].lists@.len() == r@[0].lists@.len(),
        forall|i: int|
            0 <= i < r@[0].lists@.len() ==> (#[trigger] r@[0].lists@[i])@.len()
                == r@[2].lists@[i]@.len() && sum_of(r@[2].lists@[i]@) == r@[3].lists@[i]@.len(),
        r@[4].lists@.len() == 1 && r@[4].lists@[0]@.len() == sizes@.len(),
        forall|i: int| 0 <= i < sizes@.len() ==> #[trigger] r@[4].lists@[0]@[i] == size_value(sizes@[i]),
        r@[5].lists@.len() == 1 && r@[5].lists@[0]@.len() == mtimes@.len(),
        forall|i: int|
            0 <= i < mtimes@.len() ==> #[trigger] r@[5].lists@[0]@[i] == mtime_value(
                mtimes@[i],
                min_time(mtimes@),
            ),
        forall|d: int, i: int|
            0 <= d < 4 && 0 <= i < r@[d].lists@.len() ==> list_ok(
                r@[d].meta.kind,
                r@[d].meta.universe,
                (#[trigger] r@[d].lists@[i])@,
            ),
        (forall|i: int| 0 <= i < sizes@.len() ==> #[trigger] sizes@[i] != u32::MAX) ==> list_ok(
            Kind::Unsorted,
            u32::MAX,
            r@[4].lists@[0]@,
        ),
        (forall|i: int|
            0 <= i < mtimes@.len() ==> #[trigger] mtime_value(mtimes@[i], min_time(mtimes@))
                != u32::MAX) ==> list_ok(Kind::Unsorted, u32::MAX, r@[5].lists@[0]@),
        exists|ord: Seq<usize>|
            {
                &&& #[trigger] slots_in_order(acc.word_terms(), ord)
                &&& ord.to_multiset() == slot_range(acc.word_terms().len()).to_multiset()
                &&& ord.len() == r@[0].lists@.len()
                &&& forall|i: int|
                    0 <= i < ord.len() ==> ord[i] < acc.word_terms().len() && r@[0].lists@[i]@
                        == acc.word_lists(#[trigger] ord[i] as int).0 && r@[2].lists@[i]@
                        == acc.word_lists(ord[i] as int).1 && r@[3].lists@[i]@ == acc.word_lists(
                        ord[i] as int,
                    ).2
            },
        exists|ord: Seq<usize>|
            {
                &&& #[trigger] slots_in_order(acc.trigram_terms(), ord)
                &&& ord.to_multiset() == slot_range(acc.trigram_terms().len()).to_multiset()
                &&& ord.len() == r@[1].lists@.len()
                &&& forall|i: int|
                    0 <= i < ord.len() ==> ord[i] < acc.trigram_terms().len() && r@[1].lists@[i]@
                        == acc.trigram_docs(#[trigger] ord[i] as int)
            },
{
    let ghost acc0 = acc;
    let Postings { terms, docs, freqs, posdeltas, tri_terms, tri_docs, next_doc, .. } = acc;
    let slots = all_slots(terms.len());
    assert(slots@ =~= slot_range(terms@.len() as nat));
    let order = sort_slots(&terms, slots);
    let mut words_docs = Dataset::new("words.docs", Kind::Sorted, n_docs, source);
    let mut words_freqs = Dataset::new("words.freqs", Kind::Unsorted, u32::MAX, source);
    let mut words_pos = Dataset::new("words.posdeltas", Kind::Unsorted, u32::MAX, source);
    let mut k: usize = 0;
    while k < order.len()
        invariant
            k <= order@.len(),
            next_doc <= n_docs,
            docs@.len() == terms@.len(),
            freqs@.len() == terms@.len(),
            posdeltas@.len() == terms@.len(),
            forall|j: int| 0 <= j < order@.len() ==> #[trigger] order@[j] < terms@.len(),
            forall|t: int|
                0 <= t < terms@.len() ==> #[trigger] Postings::term_ok(
                    docs@[t]@,
                    freqs@[t]@,
                    posdeltas@[t]@,
                    next_doc,
                ),
            words_docs.meta.name@ == "words.docs"@ && words_docs.meta.kind == Kind::Sorted
                && words_docs.meta.universe == n_docs && words_docs.meta.source@ == source@,
            words_freqs.meta.name@ == "words.freqs"@ && words_freqs.meta.kind == Kind::Unsorted
                && words_freqs.meta.universe == u32::MAX && words_freqs.meta.source@ == source@,
            words_pos.meta.name@ == "words.posdeltas"@ && words_pos.meta.kind == Kind::Unsorted
                && words_pos.meta.universe == u32::MAX && words_pos.meta.source@ == source@,
            words_docs.lists@.len() == k,
            words_freqs.lists@.len() == k,
            words_pos.lists@.len() == k,
            forall|i: int|
                0 <= i < k ==> Postings::term_ok(
                    (#[trigger] words_docs.lists@[i])@,
                    words_freqs.lists@[i]@,
                    words_pos.lists@[i]@,
                    n_docs,
                ) && words_docs.lists@[i]@ == docs@[order@[i] as int]@ && words_freqs.lists@[i]@
                    == freqs@[order@[i] as int]@ && words_pos.lists@[i]@ == posdeltas@[order@[i] as int]@,
        decreases order@.len() - k,
    {
        let t = order[k];
        proof {
            assert(Postings::term_ok(docs@[t as int]@, freqs@[t as int]@, posdeltas@[t as int]@, next_doc));
        }
        let d = copy_list(&docs[t]);
        let f = copy_list(&freqs[t]);
        let p = copy_list(&posdeltas[t]);
        let ghost prev_docs = words_docs.lists@;
        let ghost prev_freqs = words_freqs.lists@;
        let ghost prev_pos = words_pos.lists@;
        words_docs.lists.push(d);
        words_freqs.lists.push(f);
        words_pos.lists.push(p);
        proof {
            assert forall|i: int| 0 <= i < k + 1 implies Postings::term_ok(
                (#[trigger] words_docs.lists@[i])@,
                words_freqs.lists@[i]@,
                words_pos.lists@[i]@,
                n_docs,
            ) && words_docs.lists@[i]@ == docs@[order@[i] as int]@ && words_freqs.lists@[i]@
                == freqs@[order@[i] as int]@ && words_pos.lists@[i]@ == posdeltas@[order@[i] as int]@ by {
                if i < k {
                    assert(Postings::term_ok(prev_docs[i]@, prev_freqs[i]@, prev_pos[i]@, n_docs));
                }
            }
        }
        k = k + 1;
    }
    let tri_slots = all_slots(tri_terms.len());
    assert(tri_slots@ =~= slot_range(tri_terms@.len() as nat));
    let tri_order = sort_slots(&tri_terms, tri_slots);
    let mut tris = Dataset::new("trigrams.docs", Kind::Sorted, n_docs, source);
    let mut k: usize = 0;
    while k < tri_order.len()
        invariant
            k <= tri_order@.len(),
            next_doc <= n_docs,
            tri_docs@.len() == tri_terms@.len(),
            forall|j: int| 0 <= j < tri_order@.len() ==> #[trigger] tri_order@[j] < tri_terms@.len(),
            forall|t: int|
                0 <= t < tri_terms@.len() ==> strictly_increasing(#[trigger] tri_docs@[t]@) && below(
                    tri_docs@[t]@,
                    next_doc,
                ),
            tris.meta.name@ == "trigrams.docs"@ && tris.meta.kind == Kind::Sorted
                && tris.meta.universe == n_docs && tris.meta.source@ == source@,
            tris.lists@.len() == k,
            forall|i: int|
                0 <= i < k ==> list_ok(Kind::Sorted, n_docs, (#[trigger] tris.lists@[i])@)
                    && tris.lists@[i]@ == tri_docs@[tri_order@[i] as int]@,
        decreases tri_order@.len() - k,
    {
        let t = tri_order[k];
        proof {
            assert(strictly_increasing(tri_docs@[t as int]@));
        }
        let d = copy_list(&tri_docs[t]);
        let ghost prev = tris.lists@;
        tris.lists.push(d);
        proof {
            assert forall|i: int| 0 <= i < k + 1 implies list_ok(
                Kind::Sorted,
                n_docs,
                (#[trigger] tris.lists@[i])@,
            ) && tris.lists@[i]@ == tri_docs@[tri_order@[i] as int]@ by {
                if i < k {
                    assert(list_ok(Kind::Sorted, n_docs, prev[i]@));
                }
            }
        }
        k = k + 1;
    }
    let mut size_list: Vec<u32> = Vec::new();
    let mut i: usize = 0;
    while i < sizes.len()
        invariant
            i <= sizes@.len(),
            size_list@.len() == i,
            forall|j: int| 0 <= j < i ==> #[trigger] size_list@[j] == size_value(sizes@[j]),
        decreases sizes@.len() - i,
    {
        let s = sizes[i];
        size_list.push(if s <= u32::MAX as u64 {
            s as u32
        } else {
            u32::MAX - 1
        });
        i = i + 1;
    }
    let mut size_set = Dataset::new("docs.sizes", Kind::Unsorted, u32::MAX, source);
    size_set.lists.push(size_list);
    let mut earliest: u64 = 0;
    let mut i: usize = 0;
    while i < mtimes.len()
        invariant
            i <= mtimes@.len(),
            earliest == min_time(mtimes@.subrange(0, i as int)),
        decreases mtimes@.len() - i,
    {
        proof {
            assert(mtimes@.subrange(0, i + 1).drop_last() =~= mtimes@.subrange(0, i as int));
        }
        if i == 0 || mtimes[i] < earliest {
            earliest = mtimes[i];
        }
        i = i + 1;
    }
    assert(mtimes@.subrange(0, mtimes@.len() as int) =~= mtimes@);
    let mut mtime_list: Vec<u32> = Vec::new();
    let mut i: usize = 0;
    while i < mtimes.len()
        invariant
            i <= mtimes@.len(),
            earliest == min_time(mtimes@),
            mtime_list@.len() == i,
            forall|j: int| 0 <= j < i ==> #[trigger] mtime_list@[j] == mtime_value(mtimes@[j], earliest),
        decreases mtimes@.len() - i,
    {
        let d = mtimes[i].saturating_sub(earliest);
        mtime_list.push(if d <= u32::MAX as u64 {
            d as u32
        } else {
            u32::MAX - 1
        });
        i = i + 1;
    }
    let mut mtime_set = Dataset::new("docs.mtimes", Kind::Unsorted, u32::MAX, source);
    mtime_set.lists.push(mtime_list);
    let ghost wd = words_docs;
    let ghost tr = tris;
    let ghost wf = words_freqs;
    let ghost wp = words_pos;
    let ghost ss = size_set;
    let ghost ms = mtime_set;
    let r = vec![words_docs, tris, words_freqs, words_pos, size_set, mtime_set];
    proof {
        assert(r@[0] == wd && r@[1] == tr && r@[2] == wf && r@[3] == wp && r@[4] == ss && r@[5] == ms);
        assert forall|i: int|
            0 <= i < r@[0].lists@.len() implies (#[trigger] r@[0].lists@[i])@.len()
                == r@[2].lists@[i]@.len() && sum_of(r@[2].lists@[i]@) == r@[3].lists@[i]@.len() by {
            assert(Postings::term_ok(wd.lists@[i]@, wf.lists@[i]@, wp.lists@[i]@, n_docs));
        }
        assert forall|d: int, i: int|
            0 <= d < 4 && 0 <= i < r@[d].lists@.len() implies list_ok(
                r@[d].meta.kind,
                r@[d].meta.universe,
                (#[trigger] r@[d].lists@[i])@,
            ) by {
            if d == 0 || d == 2 || d == 3 {
                assert(Postings::term_ok(wd.lists@[i]@, wf.lists@[i]@, wp.lists@[i]@, n_docs));
            } else {
                assert(list_ok(Kind::Sorted, n_docs, tr.lists@[i]@));
            }
        }
        assert forall|d: int| 0 <= d < 6 implies (#[trigger] r@[d]).meta.source@ == source@ by {}
        assert(acc0.word_terms() == key_views(terms@));
        assert(acc0.trigram_terms() == key_views(tri_terms@));
        let ord = order@;
        assert forall|i: int| 0 <= i < ord.len() implies ord[i] < acc0.word_terms().len() && r@[0].lists@[i]@
            == acc0.word_lists(#[trigger] ord[i] as int).0 && r@[2].lists@[i]@ == acc0.word_lists(
            ord[i] as int,
        ).1 && r@[3].lists@[i]@ == acc0.word_lists(ord[i] as int).2 by {}
        assert(slots_in_order(acc0.word_terms(), ord));
        let tord = tri_order@;
        assert forall|i: int| 0 <= i < tord.len() implies tord[i] < acc0.trigram_terms().len()
            && r@[1].lists@[i]@ == acc0.trigram_docs(#[trigger] tord[i] as int) by {}
        assert(slots_in_order(acc0.trigram_terms(), tord));
    }
    r
}

} // verus!
