//! Rank and select over a range of bits, and what they give on a range
//! whose set bits are a strictly increasing list of positions.

use vstd::arithmetic::power2::{lemma2_to64, lemma_pow2_pos, pow2};
use vstd::bits::{lemma_u8_low_bits_mask_is_mod, lemma_u8_shl_is_mul, lemma_u8_shr_is_div};
use vstd::prelude::*;
use vstd::std_specs::bits::axiom_u8_trailing_zeros;

use super::bits::{
    bit_at, bitn, ceil8, lemma_bit_at_split, lemma_bitn_div, lemma_bitn_high, lemma_bitn_mod,
    lemma_u8_bit,
};

verus! {

/// Set bits among `bits[0..m)` of the number `x`.
pub open spec fn ones_in(x: nat, m: nat) -> nat
    decreases m,
{
    if m == 0 {
        0
    } else {
        ones_in(x, (m - 1) as nat) + if bitn(x, (m - 1) as nat) {
            1nat
        } else {
            0nat
        }
    }
}

/// Set bits among the first `p` bits of the range starting at bit `base`.
pub open spec fn ones(bytes: Seq<u8>, base: int, p: int) -> nat
    decreases p,
{
    if p <= 0 {
        0
    } else {
        ones(bytes, base, p - 1) + if bit_at(bytes, base + p - 1) {
            1nat
        } else {
            0nat
        }
    }
}

/// The number of ones in the binary representation of `b`.
pub(crate) fn count_ones_u8(b: u8) -> (r: u32)
    ensures
        r == ones_in(b as nat, 8),
{
    let mut count: u32 = 0;
    let mut v: u8 = b;
    let mut i: u32 = 0;
    proof {
        lemma_pow2_pos(0);
        assert(pow2(0) == 1) by {
            lemma2_to64();
        }
    }
    while i < 8
        invariant
            i <= 8,
            v as nat == (b as nat) / pow2(i as nat),
            count as nat == ones_in(b as nat, i as nat),
            count <= i,
        decreases 8 - i,
    {
        proof {
            lemma_pow2_pos(i as nat);
            vstd::arithmetic::power2::lemma_pow2_unfold((i + 1) as nat);
            vstd::arithmetic::div_mod::lemma_div_denominator(b as int, pow2(i as nat) as int, 2);
            assert(pow2(i as nat) * 2 == pow2((i + 1) as nat));
        }
        count = count + (v % 2) as u32;
        v = v / 2;
        i = i + 1;
    }
    count
}

pub proof fn lemma_ones_in_le(x: nat, m: nat)
    ensures
        ones_in(x, m) <= m,
    decreases m,
{
    if m > 0 {
        lemma_ones_in_le(x, (m - 1) as nat);
    }
}

/// Numbers that agree on their low `m` bits have as many ones there.
pub proof fn lemma_ones_in_same(x: nat, y: nat, m: nat)
    requires
        forall|k: nat| k < m ==> #[trigger] bitn(x, k) == bitn(y, k),
    ensures
        ones_in(x, m) == ones_in(y, m),
    decreases m,
{
    if m > 0 {
        lemma_ones_in_same(x, y, (m - 1) as nat);
    }
}

/// No ones in `[m, t)` adds nothing.
pub proof fn lemma_ones_in_top(x: nat, m: nat, t: nat)
    requires
        m <= t,
        forall|k: nat| m <= k < t ==> !#[trigger] bitn(x, k),
    ensures
        ones_in(x, t) == ones_in(x, m),
    decreases t,
{
    if t > m {
        lemma_ones_in_top(x, m, (t - 1) as nat);
    }
}

/// Counting across a byte boundary: the range's ones up to `8 j + k`.
pub proof fn lemma_ones_byte(bytes: Seq<u8>, start: int, j: int, k: nat)
    requires
        0 <= start,
        0 <= j,
        k <= 8,
    ensures
        ones(bytes, 8 * start, 8 * j + k) == ones(bytes, 8 * start, 8 * j) + ones_in(
            bytes[start + j] as nat,
            k,
        ),
    decreases k,
{
    if k > 0 {
        lemma_ones_byte(bytes, start, j, (k - 1) as nat);
        lemma_bit_at_split(bytes, start + j, (k - 1) as int);
        assert(8 * start + 8 * j + k - 1 == 8 * (start + j) + (k - 1));
    }
}

/// The position of the set bit of rank `rank` (counting from zero) among
/// the first `bit_len` bits that start at byte `start`; `None` when there
/// are at most `rank` set bits.
pub fn select_one(bytes: &[u8], start: usize, bit_len: usize, rank: usize) -> (r: Option<usize>)
    requires
        start + ceil8(bit_len as int) <= bytes@.len(),
        8 * bytes@.len() <= usize::MAX,
    ensures
        match r {
            Some(p) => p < bit_len && bit_at(bytes@, 8 * start + p) && ones(
                bytes@,
                8 * start as int,
                p as int,
            ) == rank,
            None => ones(bytes@, 8 * start as int, bit_len as int) <= rank,
        },
{
    let nbytes = bit_len / 8 + if bit_len % 8 != 0 {
        1
    } else {
        0
    };
    let ghost base = 8 * start as int;
    let mut j: usize = 0;
    let mut left = rank;
    while j < nbytes
        invariant
            nbytes == ceil8(bit_len as int),
            start + nbytes <= bytes@.len(),
            8 * bytes@.len() <= usize::MAX,
            base == 8 * start,
            j <= nbytes,
            8 * j <= bit_len + 7,
            j < nbytes ==> 8 * j < bit_len,
            left + ones(bytes@, base, if 8 * j <= bit_len {
                8 * j as int
            } else {
                bit_len as int
            }) == rank,
        decreases nbytes - j,
    {
        let raw = bytes[start + j];
        let mut byte = raw;
        let ghost m: nat = if 8 * j + 8 > bit_len {
            (bit_len - 8 * j) as nat
        } else {
            8
        };
        if 8 * j + 8 > bit_len {
            let keep = (bit_len - 8 * j) as u8;
            proof {
                lemma2_to64();
                lemma_u8_shl_is_mul(1u8, keep);
                lemma_pow2_pos(keep as nat);
            }
            byte = raw & ((1u8 << keep) - 1);
            proof {
                lemma_u8_low_bits_mask_is_mod(raw, keep as nat);
            }
        }
        proof {
            assert forall|k: nat| #[trigger] bitn(byte as nat, k) == (k < m && bitn(raw as nat, k))
                by {
                if m < 8 {
                    lemma_bitn_mod(raw as nat, m, k);
                } else if k >= 8 {
                    lemma2_to64();
                    lemma_bitn_high(raw as nat, 8, k);
                }
            }
            lemma_ones_in_same(byte as nat, raw as nat, m);
            lemma_ones_in_top(byte as nat, m, 8);
            lemma_ones_byte(bytes@, start as int, j as int, m);
            lemma_ones_in_le(byte as nat, 8);
        }
        let count = count_ones_u8(byte) as usize;
        if left < count {
            let mut k: u8 = 0;
            let mut r = left;
            while k < 8
                invariant
                    k <= 8,
                    r + ones_in(byte as nat, k as nat) == left,
                    left < ones_in(byte as nat, 8),
                    left + ones(bytes@, base, 8 * j as int) == rank,
                    forall|t: nat| #[trigger] bitn(byte as nat, t) == (t < m && bitn(raw as nat, t)),
                    ones(bytes@, base, 8 * j + m) == ones(bytes@, base, 8 * j as int) + ones_in(
                        raw as nat,
                        m,
                    ),
                    raw == bytes@[start + j],
                    base == 8 * start,
                    m <= 8,
                    8 * j + m <= bit_len,
                decreases 8 - k,
            {
                proof {
                    lemma_u8_bit(byte, k);
                }
                if (byte >> k) & 1 == 1 {
                    if r == 0 {
                        proof {
                            lemma_ones_in_same(byte as nat, raw as nat, k as nat);
                            lemma_ones_byte(bytes@, start as int, j as int, k as nat);
                            lemma_bit_at_split(bytes@, start + j, k as int);
                            assert(8 * start + (8 * j + k) == 8 * (start + j) + k);
                        }
                        return Some(8 * j + k as usize);
                    }
                    r = r - 1;
                }
                k = k + 1;
            }
            proof {
                assert(false);
            }
            return None;
        }
        left = left - count;
        j = j + 1;
    }
    None
}

/// The first set bit at or after `from` among the first `bit_len` bits
/// that start at byte `start`.
pub fn find_next_one(bytes: &[u8], start: usize, bit_len: usize, from: usize) -> (r: Option<usize>)
    requires
        start + ceil8(bit_len as int) <= bytes@.len(),
        8 * bytes@.len() <= usize::MAX,
    ensures
        match r {
            Some(p) => from <= p < bit_len && bit_at(bytes@, 8 * start + p) && forall|q: int|
                from <= q < p ==> !#[trigger] bit_at(bytes@, 8 * start + q),
            None => forall|q: int| from <= q < bit_len ==> !#[trigger] bit_at(bytes@, 8 * start + q),
        },
{
    if from >= bit_len {
        return None;
    }
    let nbytes = bit_len / 8 + if bit_len % 8 != 0 {
        1
    } else {
        0
    };
    let mut j = from / 8;
    while j < nbytes
        invariant
            nbytes == ceil8(bit_len as int),
            start + nbytes <= bytes@.len(),
            8 * bytes@.len() <= usize::MAX,
            from < bit_len,
            from / 8 <= j,
            8 * j <= bit_len + 7,
            forall|q: int| from <= q < 8 * j && q < bit_len ==> !#[trigger] bit_at(
                bytes@,
                8 * start + q,
            ),
        decreases nbytes - j,
    {
        let byte = bytes[start + j];
        let shift: u8 = if j == from / 8 {
            (from % 8) as u8
        } else {
            0
        };
        let t = byte >> shift;
        proof {
            lemma_u8_shr_is_div(byte, shift);
            assert forall|k: nat| #[trigger] bitn(t as nat, k) == bitn(byte as nat, (shift + k) as nat) by {
                lemma_bitn_div(byte as nat, shift as nat, k);
            }
        }
        if t != 0 {
            let tz = t.trailing_zeros();
            proof {
                axiom_u8_trailing_zeros(t);
                lemma_u8_bit(t, tz as u8);
                if shift + tz >= 8 {
                    lemma2_to64();
                    lemma_bitn_high(byte as nat, 8, (shift + tz) as nat);
                }
                assert forall|k: nat| k < tz implies !#[trigger] bitn(t as nat, k) by {
                    lemma_u8_bit(t, k as u8);
                    assert((t >> (k as u8)) & 1u8 == 0u8);
                }
            }
            let p = 8 * j + shift as usize + tz as usize;
            if p < bit_len {
                proof {
                    lemma_bit_at_split(bytes@, start + j, shift + tz);
                    assert(8 * start + p == 8 * (start + j) + (shift + tz));
                    assert forall|q: int| from <= q < p implies !#[trigger] bit_at(
                        bytes@,
                        8 * start + q,
                    ) by {
                        if q >= 8 * j {
                            let k = (q - 8 * j - shift) as nat;
                            lemma_bit_at_split(bytes@, start + j, q - 8 * j);
                            assert(8 * start + q == 8 * (start + j) + (q - 8 * j));
                            assert(bitn(t as nat, k) == bitn(byte as nat, (q - 8 * j) as nat));
                        }
                    }
                }
                return Some(p);
            } else {
                proof {
                    assert forall|q: int| from <= q < bit_len implies !#[trigger] bit_at(
                        bytes@,
                        8 * start + q,
                    ) by {
                        if q >= 8 * j {
                            let k = (q - 8 * j - shift) as nat;
                            lemma_bit_at_split(bytes@, start + j, q - 8 * j);
                            assert(8 * start + q == 8 * (start + j) + (q - 8 * j));
                            assert(bitn(t as nat, k) == bitn(byte as nat, (q - 8 * j) as nat));
                        }
                    }
                }
                return None;
            }
        }
        proof {
            assert forall|q: int| from <= q < 8 * (j + 1) && q < bit_len implies !#[trigger] bit_at(
                bytes@,
                8 * start + q,
            ) by {
                if q >= 8 * j {
                    let k = (q - 8 * j - shift) as nat;
                    lemma_bit_at_split(bytes@, start + j, q - 8 * j);
                    assert(8 * start + q == 8 * (start + j) + (q - 8 * j));
                    lemma_u8_shr_is_div(0u8, 0u8);
                    assert(bitn(t as nat, k) == bitn(byte as nat, (q - 8 * j) as nat));
                    lemma2_to64();
                    assert(t as nat / pow2(k) == 0);
                }
            }
        }
        j = j + 1;
    }
    None
}

/// Set bits strictly before bit `bit` of the range starting at byte
/// `start`.
pub fn count_ones_before(bytes: &[u8], start: usize, bit: usize) -> (r: usize)
    requires
        start + ceil8(bit as int) <= bytes@.len(),
        8 * bytes@.len() <= usize::MAX,
    ensures
        r == ones(bytes@, 8 * start as int, bit as int),
{
    let full = bit / 8;
    let ghost base = 8 * start as int;
    let mut count: usize = 0;
    let mut j: usize = 0;
    while j < full
        invariant
            full == bit / 8,
            j <= full,
            start + ceil8(bit as int) <= bytes@.len(),
            8 * bytes@.len() <= usize::MAX,
            base == 8 * start,
            count == ones(bytes@, base, 8 * j as int),
            count <= 8 * j,
        decreases full - j,
    {
        proof {
            lemma_ones_byte(bytes@, start as int, j as int, 8);
            lemma_ones_in_le(bytes@[start + j] as nat, 8);
        }
        count = count + count_ones_u8(bytes[start + j]) as usize;
        j = j + 1;
    }
    if bit % 8 != 0 {
        let raw = bytes[start + full];
        let keep = (bit % 8) as u8;
        proof {
            lemma2_to64();
            lemma_u8_shl_is_mul(1u8, keep);
            lemma_pow2_pos(keep as nat);
        }
        let byte = raw & ((1u8 << keep) - 1);
        proof {
            lemma_u8_low_bits_mask_is_mod(raw, keep as nat);
            assert forall|k: nat| #[trigger] bitn(byte as nat, k) == (k < keep && bitn(
                raw as nat,
                k,
            )) by {
                lemma_bitn_mod(raw as nat, keep as nat, k);
            }
            lemma_ones_in_same(byte as nat, raw as nat, keep as nat);
            lemma_ones_in_top(byte as nat, keep as nat, 8);
            lemma_ones_byte(bytes@, start as int, full as int, keep as nat);
            lemma_ones_in_le(byte as nat, 8);
        }
        count = count + count_ones_u8(byte) as usize;
    }
    count
}


/// `q` is one of `pos(0), ..., pos(m - 1)`.
pub open spec fn is_pos(pos: spec_fn(int) -> int, m: int, q: int) -> bool {
    exists|i: int| 0 <= i < m && #[trigger] pos(i) == q
}

/// `pos` is strictly increasing on `[0, m)`.
pub open spec fn increasing(pos: spec_fn(int) -> int, m: int) -> bool {
    forall|i: int, j: int| 0 <= i < j < m ==> #[trigger] pos(i) < #[trigger] pos(j)
}

/// How many of `pos(0), ..., pos(m - 1)` lie below `q`.
pub open spec fn count_below(pos: spec_fn(int) -> int, m: int, q: int) -> nat
    decreases m,
{
    if m <= 0 {
        0
    } else {
        count_below(pos, m - 1, q) + if pos(m - 1) < q {
            1nat
        } else {
            0nat
        }
    }
}

/// The `len` bits starting at bit `base` are set exactly at the strictly
/// increasing positions `pos(0), ..., pos(m - 1)`.
pub open spec fn sparse(
    bytes: Seq<u8>,
    base: int,
    len: int,
    pos: spec_fn(int) -> int,
    m: int,
) -> bool {
    &&& 0 <= m
    &&& increasing(pos, m)
    &&& forall|i: int| 0 <= i < m ==> 0 <= #[trigger] pos(i) < len
    &&& forall|q: int| 0 <= q < len ==> #[trigger] bit_at(bytes, base + q) == is_pos(pos, m, q)
}

pub proof fn lemma_count_below_le(pos: spec_fn(int) -> int, m: int, q: int)
    requires
        0 <= m,
    ensures
        count_below(pos, m, q) <= m,
    decreases m,
{
    if m > 0 {
        lemma_count_below_le(pos, m - 1, q);
    }
}

proof fn lemma_count_below_all(pos: spec_fn(int) -> int, m: int, q: int)
    requires
        0 <= m,
        forall|j: int| 0 <= j < m ==> #[trigger] pos(j) < q,
    ensures
        count_below(pos, m, q) == m,
    decreases m,
{
    if m > 0 {
        lemma_count_below_all(pos, m - 1, q);
    }
}

proof fn lemma_count_below_none(pos: spec_fn(int) -> int, m: int, q: int)
    requires
        0 <= m,
        forall|j: int| 0 <= j < m ==> #[trigger] pos(j) >= q,
    ensures
        count_below(pos, m, q) == 0,
    decreases m,
{
    if m > 0 {
        lemma_count_below_none(pos, m - 1, q);
    }
}

/// Stepping `q` by one counts `q` itself if it is a position.
pub proof fn lemma_count_below_step(pos: spec_fn(int) -> int, m: int, q: int)
    requires
        0 <= m,
        increasing(pos, m),
    ensures
        count_below(pos, m, q + 1) == count_below(pos, m, q) + if is_pos(pos, m, q) {
            1nat
        } else {
            0nat
        },
    decreases m,
{
    if m > 0 {
        lemma_count_below_step(pos, m - 1, q);
        if is_pos(pos, m - 1, q) {
            let i = choose|i: int| 0 <= i < m - 1 && #[trigger] pos(i) == q;
            assert(pos(i) < pos(m - 1));
        }
        if is_pos(pos, m, q) && !is_pos(pos, m - 1, q) {
            let i = choose|i: int| 0 <= i < m && #[trigger] pos(i) == q;
            if i < m - 1 {
                assert(is_pos(pos, m - 1, q));
            }
        }
        if pos(m - 1) == q {
            assert(is_pos(pos, m, q));
        }
        if is_pos(pos, m - 1, q) {
            let i = choose|i: int| 0 <= i < m - 1 && #[trigger] pos(i) == q;
            assert(is_pos(pos, m, q));
        }
    }
}

/// Exactly `i` positions lie below `pos(i)`.
pub proof fn lemma_count_below_at(pos: spec_fn(int) -> int, m: int, i: int)
    requires
        increasing(pos, m),
        0 <= i < m,
    ensures
        count_below(pos, m, pos(i)) == i,
    decreases m,
{
    if i == m - 1 {
        lemma_count_below_all(pos, m - 1, pos(i));
    } else {
        lemma_count_below_at(pos, m - 1, i);
    }
}

/// The first position at or above `q` has index `count_below(pos, m, q)`:
/// the positions before it are below `q`, the others are not.
pub proof fn lemma_count_below_split(pos: spec_fn(int) -> int, m: int, q: int)
    requires
        0 <= m,
        increasing(pos, m),
    ensures
        count_below(pos, m, q) <= m,
        forall|j: int| 0 <= j < count_below(pos, m, q) ==> #[trigger] pos(j) < q,
        forall|j: int| count_below(pos, m, q) <= j < m ==> #[trigger] pos(j) >= q,
    decreases m,
{
    lemma_count_below_le(pos, m, q);
    if m > 0 {
        lemma_count_below_split(pos, m - 1, q);
        let c = count_below(pos, m - 1, q) as int;
        if pos(m - 1) < q {
            if c < m - 1 {
                assert(pos(c) >= q);
                assert(pos(c) < pos(m - 1));
            }
        }
    }
}

/// On a sparse range, the rank of `p` counts the positions below it.
pub proof fn lemma_sparse_ones(bytes: Seq<u8>, base: int, len: int, pos: spec_fn(int) -> int, m: int)
    requires
        sparse(bytes, base, len, pos, m),
    ensures
        forall|p: int| 0 <= p <= len ==> #[trigger] ones(bytes, base, p) == count_below(pos, m, p),
{
    assert forall|p: int| 0 <= p <= len implies #[trigger] ones(bytes, base, p) == count_below(
        pos,
        m,
        p,
    ) by {
        lemma_sparse_ones_upto(bytes, base, len, pos, m, p);
    }
}

proof fn lemma_sparse_ones_upto(
    bytes: Seq<u8>,
    base: int,
    len: int,
    pos: spec_fn(int) -> int,
    m: int,
    p: int,
)
    requires
        sparse(bytes, base, len, pos, m),
        0 <= p <= len,
    ensures
        ones(bytes, base, p) == count_below(pos, m, p),
    decreases p,
{
    if p == 0 {
        lemma_count_below_none(pos, m, 0);
    } else {
        lemma_sparse_ones_upto(bytes, base, len, pos, m, p - 1);
        lemma_count_below_step(pos, m, p - 1);
        assert(bit_at(bytes, base + (p - 1)) == is_pos(pos, m, p - 1));
    }
}

/// The set bit of rank `r` is `pos(r)`, and there are `m` set bits.
pub proof fn lemma_sparse_select(
    bytes: Seq<u8>,
    base: int,
    len: int,
    pos: spec_fn(int) -> int,
    m: int,
    p: int,
)
    requires
        sparse(bytes, base, len, pos, m),
        0 <= p < len,
        bit_at(bytes, base + p),
    ensures
        ones(bytes, base, p) < m,
        p == pos(ones(bytes, base, p) as int),
{
    lemma_sparse_ones(bytes, base, len, pos, m);
    assert(bit_at(bytes, base + p) == is_pos(pos, m, p));
    let i = choose|i: int| 0 <= i < m && #[trigger] pos(i) == p;
    lemma_count_below_at(pos, m, i);
}

/// All `m` positions are counted at the end of the range.
pub proof fn lemma_sparse_total(
    bytes: Seq<u8>,
    base: int,
    len: int,
    pos: spec_fn(int) -> int,
    m: int,
)
    requires
        sparse(bytes, base, len, pos, m),
        0 <= len,
    ensures
        ones(bytes, base, len) == m,
{
    lemma_sparse_ones(bytes, base, len, pos, m);
    lemma_count_below_all(pos, m, len);
}

/// The rank of `pos(i)` is `i`.
pub proof fn lemma_sparse_rank(
    bytes: Seq<u8>,
    base: int,
    len: int,
    pos: spec_fn(int) -> int,
    m: int,
    i: int,
)
    requires
        sparse(bytes, base, len, pos, m),
        0 <= i < m,
    ensures
        ones(bytes, base, pos(i)) == i,
        bit_at(bytes, base + pos(i)),
{
    lemma_sparse_ones(bytes, base, len, pos, m);
    lemma_count_below_at(pos, m, i);
    assert(is_pos(pos, m, pos(i)));
}

/// No set bit in `[from, to)` means no position there.
pub proof fn lemma_sparse_gap(
    bytes: Seq<u8>,
    base: int,
    len: int,
    pos: spec_fn(int) -> int,
    m: int,
    from: int,
    to: int,
)
    requires
        sparse(bytes, base, len, pos, m),
        0 <= from <= to <= len,
        forall|q: int| from <= q < to ==> !#[trigger] bit_at(bytes, base + q),
    ensures
        count_below(pos, m, to) == count_below(pos, m, from),
    decreases to - from,
{
    if from < to {
        lemma_sparse_gap(bytes, base, len, pos, m, from, to - 1);
        lemma_count_below_step(pos, m, to - 1);
        assert(!bit_at(bytes, base + (to - 1)));
    }
}

/// The first set bit at or after `from` is the first position at or after
/// `from`.
pub proof fn lemma_sparse_next(
    bytes: Seq<u8>,
    base: int,
    len: int,
    pos: spec_fn(int) -> int,
    m: int,
    from: int,
    p: int,
)
    requires
        sparse(bytes, base, len, pos, m),
        0 <= from <= p < len,
        bit_at(bytes, base + p),
        forall|q: int| from <= q < p ==> !#[trigger] bit_at(bytes, base + q),
    ensures
        count_below(pos, m, from) < m,
        p == pos(count_below(pos, m, from) as int),
{
    lemma_sparse_gap(bytes, base, len, pos, m, from, p);
    assert(bit_at(bytes, base + p) == is_pos(pos, m, p));
    let i = choose|i: int| 0 <= i < m && #[trigger] pos(i) == p;
    lemma_count_below_at(pos, m, i);
}

/// No set bit from `from` on means every position is below `from`.
pub proof fn lemma_sparse_none(
    bytes: Seq<u8>,
    base: int,
    len: int,
    pos: spec_fn(int) -> int,
    m: int,
    from: int,
)
    requires
        sparse(bytes, base, len, pos, m),
        0 <= from <= len,
        forall|q: int| from <= q < len ==> !#[trigger] bit_at(bytes, base + q),
    ensures
        count_below(pos, m, from) == m,
{
    lemma_sparse_gap(bytes, base, len, pos, m, from, len);
    lemma_count_below_all(pos, m, len);
}


/// The first set bit after `pos(i)` is `pos(i + 1)`.
pub proof fn lemma_sparse_after(
    bytes: Seq<u8>,
    base: int,
    len: int,
    pos: spec_fn(int) -> int,
    m: int,
    i: int,
    p: int,
)
    requires
        sparse(bytes, base, len, pos, m),
        0 <= i,
        i + 1 < m,
        pos(i) + 1 <= p < len,
        bit_at(bytes, base + p),
        forall|q: int| pos(i) + 1 <= q < p ==> !#[trigger] bit_at(bytes, base + q),
    ensures
        p == pos(i + 1),
{
    lemma_sparse_next(bytes, base, len, pos, m, pos(i) + 1, p);
    lemma_count_below_at(pos, m, i);
    lemma_count_below_step(pos, m, pos(i));
    assert(is_pos(pos, m, pos(i)));
}


/// Byte `j` of the range of `bit_len` bits starting at byte `start`, with
/// the bits past the range cleared.
pub fn range_byte(bytes: &[u8], start: usize, bit_len: usize, j: usize) -> (r: u8)
    requires
        start + ceil8(bit_len as int) <= bytes@.len(),
        8 * bytes@.len() <= usize::MAX,
        8 * j < bit_len,
    ensures
        forall|k: nat| #[trigger] bitn(r as nat, k) == (k < 8 && 8 * j + k < bit_len && bit_at(
            bytes@,
            8 * start + 8 * j + k,
        )),
        ones_in(r as nat, 8) == ones(bytes@, 8 * start as int, if 8 * j + 8 <= bit_len {
            8 * j + 8
        } else {
            bit_len as int
        }) - ones(bytes@, 8 * start as int, 8 * j as int),
{
    let raw = bytes[start + j];
    let ghost m: nat = if 8 * j + 8 > bit_len {
        (bit_len - 8 * j) as nat
    } else {
        8
    };
    let mut byte = raw;
    if 8 * j + 8 > bit_len {
        let keep = (bit_len - 8 * j) as u8;
        proof {
            lemma2_to64();
            lemma_u8_shl_is_mul(1u8, keep);
            lemma_pow2_pos(keep as nat);
        }
        byte = raw & ((1u8 << keep) - 1);
        proof {
            lemma_u8_low_bits_mask_is_mod(raw, keep as nat);
        }
    }
    proof {
        assert forall|k: nat| #[trigger] bitn(byte as nat, k) == (k < m && bitn(raw as nat, k)) by {
            if m < 8 {
                lemma_bitn_mod(raw as nat, m, k);
            } else if k >= 8 {
                lemma2_to64();
                lemma_bitn_high(raw as nat, 8, k);
            }
        }
        assert forall|k: nat| #[trigger] bitn(byte as nat, k) == (k < 8 && 8 * j + k < bit_len
            && bit_at(bytes@, 8 * start + 8 * j + k)) by {
            if k < 8 {
                lemma_bit_at_split(bytes@, start + j, k as int);
                assert(8 * start + 8 * j + k == 8 * (start + j) + k);
            }
        }
        lemma_ones_in_same(byte as nat, raw as nat, m);
        lemma_ones_in_top(byte as nat, m, 8);
        lemma_ones_byte(bytes@, start as int, j as int, m);
    }
    byte
}

} // verus!
