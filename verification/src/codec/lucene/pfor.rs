//! Lucene 10.3.1 `PForUtil`: patched frame-of-reference over a 128-int block.
//!
//! Token byte is `(num_exceptions << 5) | bpv`. The all-equal special case
//! writes bpv 0 and a vint of the common (unpatched) value. Exceptions are
//! `[index u8][high byte]` pairs. Comparisons are unsigned, which agrees
//! with Lucene on the non-negative values it stores. A block whose patched
//! width would not fit the five-bit field (or whose token would collide
//! with it) is written as the reserved token `0xff` and 128 raw
//! little-endian ints.

use vstd::prelude::*;

use super::for_util::{self, BLOCK_SIZE, bits_required, num_bytes, unpacked_value};
use super::io::{
    Reader,
    byte_at,
    lemma_vint_read_written,
    lemma_vlong_read_written,
    pos_after,
    stream,
    stream_varint_len,
    write_vint,
};
use crate::bytes::words_le;
use crate::leb128::{vint_bytes, vint_value, vlong_bytes};

verus! {

/// The token of a raw block: 128 little-endian ints follow, no exceptions.
pub const RAW_TOKEN: u8 = 0xff;

const MAX_EXCEPTIONS: usize = 7;

/// Bytes `skip` reports for the block at the start of `buf`: the token,
/// then 512 raw bytes for the raw token, a vlong for width 0, or the packed
/// ints, then two bytes per exception.
pub open spec fn skip_len(buf: Seq<u8>) -> int {
    let token = byte_at(buf, 0);
    let p1 = pos_after(0, 1, buf.len() as int);
    if token == RAW_TOKEN {
        p1 + 512
    } else if token & 0x1f == 0 {
        pos_after(p1, stream_varint_len(buf, p1, 0, 10), buf.len() as int) + 2 * (token >> 5u8)
    } else {
        p1 + 16 * (token & 0x1f) + 2 * (token >> 5u8)
    }
}

/// Every value of the block equals the first, which fits in a byte.
pub open spec fn all_equal_small(ints: Seq<u32>) -> bool {
    &&& ints.len() == BLOCK_SIZE
    &&& forall|i: int| 0 <= i < BLOCK_SIZE ==> #[trigger] ints[i] == ints[0]
    &&& ints[0] < 0x100
}

/// What `bits_required` gives for a value below 256 is at most 8, and the
/// value fits under that many bits.
proof fn lemma_small_bits(x: u32, r: u32)
    requires
        x < 0x100,
        1 <= r <= 32,
        r < 32 ==> x >> r == 0,
        r > 1 ==> x >> ((r - 1) as u32) != 0,
    ensures
        r <= 8,
        x <= (1u32 << r) - 1,
{
    vstd::arithmetic::power2::lemma2_to64();
    if r > 8 {
        vstd::bits::lemma_u32_shr_is_div(x, (r - 1) as u32);
        if r - 1 > 8 {
            vstd::arithmetic::power2::lemma_pow2_strictly_increases(8, (r - 1) as nat);
        }
        assert(x as nat / vstd::arithmetic::power2::pow2((r - 1) as nat) == 0) by (nonlinear_arith)
            requires
                x < 0x100,
                vstd::arithmetic::power2::pow2((r - 1) as nat) >= 0x100,
        ;
    }
    vstd::bits::lemma_u32_shr_is_div(x, r);
    vstd::bits::lemma_u32_shl_is_mul(1, r);
    let p = vstd::arithmetic::power2::pow2(r as nat);
    assert(x < p) by (nonlinear_arith)
        requires
            x as nat / p == 0,
            p > 0,
    ;
}

/// Some heap entry is at least `x`.
pub open spec fn covered(h: Seq<u32>, x: u32) -> bool {
    exists|t: int| 0 <= t < 8 && #[trigger] h[t] >= x
}

/// A permutation of the heap covers what it covered.
proof fn lemma_covered_perm(h1: Seq<u32>, h2: Seq<u32>, x: u32)
    requires
        h1.len() == 8,
        h2.len() == 8,
        h1.to_multiset() == h2.to_multiset(),
        covered(h1, x),
    ensures
        covered(h2, x),
{
    let t = choose|t: int| 0 <= t < 8 && #[trigger] h1[t] >= x;
    h1.to_multiset_ensures();
    h2.to_multiset_ensures();
    assert(h1.contains(h1[t]));
    assert(h1.to_multiset().count(h1[t]) > 0);
    assert(h2.to_multiset().count(h1[t]) > 0);
    assert(h2.contains(h1[t]));
    let t2 = choose|t2: int| 0 <= t2 < h2.len() && h2[t2] == h1[t];
    assert(h2[t2] >= x);
}

/// A value as the packed body holds it: its bits up to `mu` when it is
/// larger.
pub open spec fn masked(v: u32, mu: u32) -> u32 {
    if v > mu {
        v & mu
    } else {
        v
    }
}

/// The exception bytes for the first `i` values: for each one above `mu`,
/// its index and the byte of its bits above `w`.
pub open spec fn exceptions_of(ints: Seq<u32>, mu: u32, w: u32, i: int) -> Seq<u8>
    decreases i,
{
    if i <= 0 {
        Seq::empty()
    } else {
        let prev = exceptions_of(ints, mu, w, i - 1);
        let v = ints[i - 1];
        if v > mu {
            prev + seq![(i - 1) as u8, (v >> w) as u8]
        } else {
            prev
        }
    }
}

/// Value `k` after the first `e` exception pairs of `x` are applied to
/// `base`.
pub open spec fn apply_exceptions(x: Seq<u8>, base: u32, k: int, w: u32, e: int) -> u32
    decreases e,
{
    if e <= 0 {
        base
    } else {
        let prev = apply_exceptions(x, base, k, w, e - 1);
        if x[2 * (e - 1)] as int == k {
            prev | ((x[2 * (e - 1) + 1] as u32) << w)
        } else {
            prev
        }
    }
}

/// Applying exceptions reads only their bytes.
proof fn lemma_apply_prefix(x: Seq<u8>, y: Seq<u8>, base: u32, k: int, w: u32, e: int)
    requires
        0 <= e,
        2 * e <= x.len(),
        2 * e <= y.len(),
        forall|j: int| 0 <= j < 2 * e ==> #[trigger] x[j] == y[j],
    ensures
        apply_exceptions(x, base, k, w, e) == apply_exceptions(y, base, k, w, e),
    decreases e,
{
    if e > 0 {
        lemma_apply_prefix(x, y, base, k, w, e - 1);
        assert(x[2 * (e - 1)] == y[2 * (e - 1)]);
        assert(x[2 * (e - 1) + 1] == y[2 * (e - 1) + 1]);
    }
}

/// The exceptions of the first `i` values patch value `k` exactly when it
/// is among them and above `mu`, with its high byte.
proof fn lemma_exceptions_apply(ints: Seq<u32>, mu: u32, w: u32, i: int, base: u32, k: int)
    requires
        0 <= i <= BLOCK_SIZE,
        ints.len() == BLOCK_SIZE,
        0 <= k < BLOCK_SIZE,
    ensures
        exceptions_of(ints, mu, w, i).len() % 2 == 0,
        exceptions_of(ints, mu, w, i).len() <= 2 * i,
        apply_exceptions(
            exceptions_of(ints, mu, w, i),
            base,
            k,
            w,
            exceptions_of(ints, mu, w, i).len() as int / 2,
        ) == (if k < i && ints[k] > mu {
            base | ((((ints[k] >> w) as u8) as u32) << w)
        } else {
            base
        }),
    decreases i,
{
    if i > 0 {
        lemma_exceptions_apply(ints, mu, w, i - 1, base, k);
        let prev = exceptions_of(ints, mu, w, i - 1);
        let cur = exceptions_of(ints, mu, w, i);
        let n: int = prev.len() as int / 2;
        if ints[i - 1] > mu {
            assert(cur == prev + seq![(i - 1) as u8, (ints[i - 1] >> w) as u8]);
            assert(cur.len() / 2 == n + 1);
            lemma_apply_prefix(prev, cur, base, k, w, n);
            assert(cur[2 * n] == (i - 1) as u8);
            assert(cur[2 * n + 1] == (ints[i - 1] >> w) as u8);
            assert(((i - 1) as u8) as int == i - 1);
        }
    }
}

/// Widths at which `for_util` is proven to read back what it wrote.
pub open spec fn proven_width(w: u32) -> bool {
    1 <= w <= 8 || w == 12 || 14 <= w <= 16 || w == 24 || w == 28 || 30 <= w <= 31
}

/// Decoding `block` gives `ints` back and stops at its end, as does
/// skipping it, whatever bytes follow.
pub open spec fn round_trips(block: Seq<u8>, ints: Seq<u32>) -> bool {
    forall|post: Seq<u8>|
        #![trigger block + post]
        {
            &&& decode_len(block + post) == block.len()
            &&& skip_len(block + post) == block.len()
            &&& forall|k: int| 0 <= k < BLOCK_SIZE ==> #[trigger] block_value(block + post, k) == ints[k]
        }
}

/// Applying the exceptions a block's bytes hold is applying the pairs of
/// `x`, when those bytes are `x`.
proof fn lemma_patched_matches(buf: Seq<u8>, x: Seq<u8>, w: u32, k: int, e: int)
    requires
        byte_at(buf, 0) != RAW_TOKEN,
        (byte_at(buf, 0) & 0x1f) as u32 == w,
        0 <= e,
        2 * e <= x.len(),
        exceptions_start(buf) >= 1,
        exceptions_start(buf) + x.len() <= buf.len(),
        forall|j: int| 0 <= j < x.len() ==> #[trigger] buf[exceptions_start(buf) + j] == x[j],
    ensures
        patched_value(buf, k, e) == apply_exceptions(x, unpatched_value(buf, k), k, w, e),
    decreases e,
{
    if e > 0 {
        lemma_patched_matches(buf, x, w, k, e - 1);
        let st = exceptions_start(buf);
        let p = pos_after(st, 2 * (e - 1), buf.len() as int);
        assert(p == st + 2 * (e - 1));
        assert(byte_at(buf, p) == x[2 * (e - 1)]);
        assert(pos_after(p, 1, buf.len() as int) == p + 1);
        assert(buf[exceptions_start(buf) + (2 * (e - 1) + 1)] == x[2 * (e - 1) + 1]);
        assert(byte_at(buf, p + 1) == x[2 * (e - 1) + 1]);
    }
}

/// A packed block (the token with its exception count and width, the
/// masked values packed at that width, then the exceptions) decodes back
/// to the block, and decoding and skipping stop at its end.
proof fn lemma_packed_block_round_trip(
    ints: Seq<u32>,
    values: Seq<u32>,
    mu: u32,
    w: u32,
    ne: int,
    tok: u8,
    post: Seq<u8>,
)
    requires
        proven_width(w),
        ints.len() == BLOCK_SIZE,
        values.len() == BLOCK_SIZE,
        mu == ((1u32 << w) - 1) as u32,
        forall|j: int| 0 <= j < BLOCK_SIZE ==> #[trigger] values[j] == masked(ints[j], mu),
        forall|j: int| 0 <= j < BLOCK_SIZE ==> #[trigger] ints[j] >> w < 256,
        2 * ne == exceptions_of(ints, mu, w, BLOCK_SIZE as int).len(),
        0 <= ne <= 7,
        tok == ((ne as u8) << 5u8) | (w as u8),
        tok != RAW_TOKEN,
    ensures
        ({
            let block = seq![tok] + for_util::for_bytes(values, w) + exceptions_of(ints, mu, w, BLOCK_SIZE as int);
            &&& decode_len(block + post) == block.len()
            &&& skip_len(block + post) == block.len()
            &&& forall|k: int| 0 <= k < BLOCK_SIZE ==> #[trigger] block_value(block + post, k) == ints[k]
        }),
{
    let x = exceptions_of(ints, mu, w, BLOCK_SIZE as int);
    let f = for_util::for_bytes(values, w);
    let block = seq![tok] + f + x;
    let buf = block + post;
    for_util::lemma_packing_bits(0, 0, 0, 0, 0, 0, 0, 0, 0, 0, 0, 0, ne as u8, w as u8, 0, 0, 0, 0, 0);
    assert(tok & 0x1f == w as u8 && tok >> 5u8 == ne as u8);
    crate::bytes::lemma_words_le(
        for_util::packed_block(
            for_util::collapsed_lanes(values, for_util::for_primitive(w)),
            w,
            for_util::for_primitive(w),
        ),
    );
    let pw = for_util::for_primitive(w);
    let colv = for_util::collapsed_lanes(values, pw);
    let nb = pw / w;
    for_util::lemma_stitch_len(
        colv,
        w,
        pw,
        (pw - nb * w) as u32,
        for_util::band_words(colv, w, pw),
        0,
        w,
        4 * nb * w,
        (4 * w) as nat,
    );
    assert(f.len() == 16 * w);
    assert(byte_at(buf, 0) == tok);
    assert(exceptions_start(buf) == 1 + 16 * w);
    assert forall|j: int| 0 <= j < x.len() implies #[trigger] buf[exceptions_start(buf) + j] == x[j] by {
        assert(buf[1 + 16 * w + j] == x[j]);
    }
    vstd::arithmetic::power2::lemma2_to64();
    vstd::bits::lemma_u32_shl_is_mul(1, w);
    assert(mu as nat + 1 == vstd::arithmetic::power2::pow2(w as nat));
    assert forall|j: int| 0 <= j < BLOCK_SIZE implies (#[trigger] values[j] as nat)
        < vstd::arithmetic::power2::pow2(w as nat) by {
        for_util::lemma_packing_bits(0, 0, 0, 0, 0, 0, 0, 0, 0, 0, 0, 0, 0, 0, ints[j], w, mu, 0, 0);
    }
    assert(after_token(buf) =~= f + (x + post));
    assert forall|k: int| 0 <= k < BLOCK_SIZE implies #[trigger] block_value(buf, k) == ints[k] by {
        for_util::lemma_for_round_trip(w, values, x + post, k);
        assert(unpatched_value(buf, k) == values[k]);
        lemma_patched_matches(buf, x, w, k, ne);
        lemma_exceptions_apply(ints, mu, w, BLOCK_SIZE as int, values[k], k);
        for_util::lemma_packing_bits(0, 0, 0, 0, 0, 0, 0, 0, 0, 0, 0, 0, 0, 0, ints[k], w, mu, 0, 0);
    }
}

/// The eighth largest value of the block (the smallest one a heap of the
/// eight largest keeps) and the largest: every value is at most the second.
fn top_and_max(ints: &[u32; BLOCK_SIZE]) -> (r: (u32, u32))
    ensures
        forall|j: int| 0 <= j < BLOCK_SIZE ==> #[trigger] ints@[j] <= r.1,
        all_equal_small(ints@) ==> r.0 == ints@[0] && r.1 == ints@[0],
{
    let ghost eq = all_equal_small(ints@);
    let ghost v0 = ints@[0];
    let mut heap: [u32; 8] = [0u32; 8];
    let mut i: usize = 0;
    while i < MAX_EXCEPTIONS + 1
        invariant
            i <= 8,
                        eq == all_equal_small(ints@),
            v0 == ints@[0],
            eq ==> forall|j: int| 0 <= j < i ==> #[trigger] heap@[j] == v0,
            forall|j: int| 0 <= j < i ==> #[trigger] heap@[j] == ints@[j],
        decreases 8 - i,
    {
        proof {
            if eq {
                assert(ints@[i as int] == v0);
            }
        }
        heap[i] = ints[i];
        i = i + 1;
    }
    assert forall|j: int| 0 <= j < 8 implies covered(heap@, #[trigger] ints@[j]) by {
        assert(heap@[j] >= ints@[j]);
    }
    let ghost h_pre = heap@;
    proof {
        if eq {
            assert(all_same(heap@));
        }
    }
    min_heapify(&mut heap);
    assert forall|j: int| 0 <= j < 8 implies covered(heap@, #[trigger] ints@[j]) by {
        lemma_covered_perm(h_pre, heap@, ints@[j]);
    }
    let mut i: usize = MAX_EXCEPTIONS + 1;
    while i < BLOCK_SIZE
        invariant
            8 <= i <= BLOCK_SIZE,
                        eq == all_equal_small(ints@),
            v0 == ints@[0],
            eq ==> forall|j: int| 0 <= j < 8 ==> #[trigger] heap@[j] == v0,
            forall|j: int| 0 <= j < i ==> covered(heap@, #[trigger] ints@[j]),
        decreases BLOCK_SIZE - i,
    {
        proof {
            if eq {
                assert(ints@[i as int] == v0);
                assert(heap@[0] == v0);
            }
        }
        let v = ints[i];
        if v > heap[0] {
            let ghost h0 = heap@;
            heap[0] = v;
            let ghost h1 = heap@;
            assert forall|j: int| 0 <= j <= i implies covered(h1, #[trigger] ints@[j]) by {
                if j < i {
                    let t = choose|t: int| 0 <= t < 8 && #[trigger] h0[t] >= ints@[j];
                    if t == 0 {
                        assert(h1[0] >= ints@[j]);
                    } else {
                        assert(h1[t] >= ints@[j]);
                    }
                } else {
                    assert(h1[0] >= ints@[j]);
                }
            }
            sift_down(&mut heap, 0);
            assert forall|j: int| 0 <= j <= i implies covered(heap@, #[trigger] ints@[j]) by {
                lemma_covered_perm(h1, heap@, ints@[j]);
            }
        } else {
            assert(covered(heap@, ints@[i as int])) by {
                assert(heap@[0] >= ints@[i as int]);
            }
        }
        i = i + 1;
    }
    let top_value = heap[0];
    let mut max: u32 = 0;
    let mut i: usize = 0;
    while i < 8
        invariant
            i <= 8,
            eq ==> forall|j: int| 0 <= j < 8 ==> #[trigger] heap@[j] == v0,
            eq ==> max == (if i == 0 {
                0
            } else {
                v0
            }),
            forall|t: int| 0 <= t < i ==> #[trigger] heap@[t] <= max,
        decreases 8 - i,
    {
        if heap[i] > max {
            max = heap[i];
        }
        i = i + 1;
    }
    proof {
        assert forall|j: int| 0 <= j < BLOCK_SIZE implies #[trigger] ints@[j] <= max by {
            let t = choose|t: int| 0 <= t < 8 && #[trigger] heap@[t] >= ints@[j];
        }
    }
    (top_value, max)
}

/// Encode one block. `ints` is copied, not clobbered.
#[verifier::spinoff_prover]
#[verifier::rlimit(100)]
pub fn encode(ints: &[u32; BLOCK_SIZE], out: &mut Vec<u8>)
    ensures
        final(out)@.len() > old(out)@.len(),
        final(out)@.subrange(0, old(out)@.len() as int) == old(out)@,
        final(out)@[old(out)@.len() as int] == RAW_TOKEN ==> final(out)@ == old(out)@ + seq![
            RAW_TOKEN,
        ] + words_le(ints@),
        all_equal_small(ints@) ==> final(out)@ == old(out)@ + seq![0u8] + vint_bytes(ints@[0]),
        (final(out)@[old(out)@.len() as int] == RAW_TOKEN || all_equal_small(ints@) || proven_width(
            (final(out)@[old(out)@.len() as int] & 0x1f) as u32,
        )) ==> round_trips(final(out)@.subrange(old(out)@.len() as int, final(out)@.len() as int), ints@),
{
    let ghost eq = all_equal_small(ints@);
    let ghost v0 = ints@[0];
    let mut values = *ints;
    assert(values@ == ints@);
    let (top_value, max) = top_and_max(ints);
    proof {
        if eq {
            assert(max == v0 && top_value == v0);
        }
    }
    let max_bits_required = bits_required(max);
    let top_bits = bits_required(top_value);
    proof {
        if eq {
            assert(max == v0 && top_value == v0);
            lemma_small_bits(v0, max_bits_required);
            lemma_small_bits(v0, top_bits);
        }
    }
    let low_bits = max_bits_required.saturating_sub(8);
    let patched_bits_required: u32 = if top_bits > low_bits {
        top_bits
    } else {
        low_bits
    };
    let max_unpatched: u32 = if patched_bits_required >= 32 {
        u32::MAX
    } else {
        proof {
            for_util::lemma_packing_bits(0, 0, 0, 0, 0, 0, 0, 0, 0, 0, 0, 0, 0, 0, 0, patched_bits_required, 0, 0, 0);
        }
        (1u32 << patched_bits_required) - 1
    };
    let mut exceptions: Vec<u8> = Vec::new();
    let mut i: usize = 0;
    while i < BLOCK_SIZE
        invariant
            i <= BLOCK_SIZE,
            exceptions@.len() <= 2 * i,
            1 <= patched_bits_required <= 32,
            eq ==> values@ == ints@ && exceptions@.len() == 0 && v0 <= max_unpatched,
            eq ==> forall|j: int| 0 <= j < BLOCK_SIZE ==> #[trigger] ints@[j] == v0,
            patched_bits_required < 32 ==> max_unpatched == ((1u32 << patched_bits_required) - 1) as u32,
            patched_bits_required >= 32 ==> max_unpatched == u32::MAX,
            forall|j: int| 0 <= j < i ==> #[trigger] values@[j] == masked(ints@[j], max_unpatched),
            forall|j: int| i <= j < BLOCK_SIZE ==> #[trigger] values@[j] == ints@[j],
            exceptions@ == exceptions_of(ints@, max_unpatched, patched_bits_required, i as int),
        decreases BLOCK_SIZE - i,
    {
        let v = values[i];
        let ghost before = values@;
        let ghost exc0 = exceptions@;
        if v > max_unpatched {
            exceptions.push(i as u8);
            exceptions.push(shr_u32(v, patched_bits_required) as u8);
            values[i] = v & max_unpatched;
            assert(exceptions@ =~= exc0 + seq![i as u8, (v >> patched_bits_required) as u8]);
        }
        assert(exceptions@ == exceptions_of(ints@, max_unpatched, patched_bits_required, i + 1));
        i = i + 1;
    }
    let num_exceptions = exceptions.len() / 2;
    let ghost start = out@;
    let token = ((num_exceptions as u8) << 5u8) | (patched_bits_required as u8);
    proof {
        if eq {
            vstd::bits::lemma_u8_shl_is_mul(0u8, 5u8);
            super::for_delta::lemma_bit_facts(0, patched_bits_required as u8);
            assert(token == patched_bits_required as u8);
        }
    }
    if patched_bits_required >= 32 || token == RAW_TOKEN || num_exceptions > MAX_EXCEPTIONS {
        out.push(RAW_TOKEN);
        for_util::encode(ints, 32, out);
        assert(out@ =~= start + seq![RAW_TOKEN] + words_le(ints@));
        proof {
            let block = out@.subrange(start.len() as int, out@.len() as int);
            assert(block =~= seq![RAW_TOKEN] + words_le(ints@));
            crate::bytes::lemma_words_le(ints@);
            assert forall|post: Seq<u8>| #![trigger block + post] {
                &&& decode_len(block + post) == block.len()
                &&& skip_len(block + post) == block.len()
                &&& forall|k: int| 0 <= k < BLOCK_SIZE ==> #[trigger] block_value(block + post, k) == ints@[k]
            } by {
                lemma_raw_block_round_trip(ints@, post);
            }
        }
        return ;
    }
    proof {
        for_util::lemma_packing_bits(0, 0, 0, 0, 0, 0, 0, 0, 0, 0, 0, 0, num_exceptions as u8, patched_bits_required as u8, 0, 0, 0, 0, 0);
    }
    let equal = all_equal(&values);
    proof {
        if eq {
            assert(equal);
            assert(exceptions@.len() == 0);
        }
    }
    if equal && max_bits_required <= 8 {
        let mut j: usize = 0;
        while j + 1 < exceptions.len()
            invariant
                exceptions@.len() <= 2 * BLOCK_SIZE,
                j <= exceptions@.len(),
                patched_bits_required < 32,
                eq ==> exceptions@.len() == 0,
            decreases exceptions@.len() - j,
        {
            let hi = exceptions[j + 1];
            exceptions.set(j + 1, ((hi as u32) << patched_bits_required) as u8);
            j = j + 2;
        }
        let zero_token = (num_exceptions as u8) << 5u8;
        assert(zero_token != 0xff);
        proof {
            if eq {
                vstd::bits::lemma_u8_shl_is_mul(0u8, 5u8);
                assert(zero_token == 0);
            }
        }
        out.push(zero_token);
        write_vint(out, values[0]);
        assert(out@[start.len() as int] == zero_token);
        assert(zero_token & 0x1f == 0);
        proof {
            if eq {
                assert(out@ =~= start + seq![0u8] + vint_bytes(v0));
            }
        }
    } else {
        out.push(token);
        let ghost after_token = out@;
        for_util::encode(&values, patched_bits_required, out);
        assert(out@[start.len() as int] == out@.subrange(0, after_token.len() as int)[start.len() as int]);
        assert(out@ =~= start + seq![token] + for_util::for_bytes(values@, patched_bits_required));
    }
    let ghost mid = out@;
    let mut j: usize = 0;
    while j < exceptions.len()
        invariant
            j <= exceptions@.len(),
            mid.len() > start.len(),
            mid.subrange(0, start.len() as int) == start,
            out@ == mid + exceptions@.subrange(0, j as int),
        decreases exceptions@.len() - j,
    {
        out.push(exceptions[j]);
        proof {
            assert(out@ =~= mid + exceptions@.subrange(0, j + 1));
        }
        j = j + 1;
    }
    proof {
        if eq {
            assert(out@ =~= mid);
        }
        assert(out@.subrange(0, start.len() as int) =~= start);
        assert(out@[start.len() as int] == mid[start.len() as int]);
        assert(out@[start.len() as int] != RAW_TOKEN);
        let block = out@.subrange(start.len() as int, out@.len() as int);
        assert(exceptions@.subrange(0, exceptions@.len() as int) =~= exceptions@);
        if eq {
            assert(block =~= seq![0u8] + vint_bytes(v0));
            assert forall|post: Seq<u8>| #![trigger block + post] {
                &&& decode_len(block + post) == block.len()
                &&& skip_len(block + post) == block.len()
                &&& forall|k: int| 0 <= k < BLOCK_SIZE ==> #[trigger] block_value(block + post, k) == ints@[k]
            } by {
                lemma_all_equal_block_round_trip(v0, post);
            }
        } else if !(equal && max_bits_required <= 8) && proven_width(patched_bits_required) {
            assert(block =~= seq![token] + for_util::for_bytes(values@, patched_bits_required) + exceptions_of(ints@, max_unpatched, patched_bits_required, BLOCK_SIZE as int));
            lemma_exceptions_apply(ints@, max_unpatched, patched_bits_required, BLOCK_SIZE as int, 0, 0);
            assert(2 * (num_exceptions as int) == exceptions@.len());
            assert forall|j: int| 0 <= j < BLOCK_SIZE implies #[trigger] ints@[j] >> patched_bits_required < 256 by {
                for_util::lemma_packing_bits(0, 0, 0, 0, 0, 0, 0, 0, 0, 0, 0, 0, 0, 0, ints@[j], patched_bits_required, 0, max, max_bits_required);
            }
            assert forall|post: Seq<u8>| #![trigger block + post] {
                &&& decode_len(block + post) == block.len()
                &&& skip_len(block + post) == block.len()
                &&& forall|k: int| 0 <= k < BLOCK_SIZE ==> #[trigger] block_value(block + post, k) == ints@[k]
            } by {
                lemma_packed_block_round_trip(ints@, values@, max_unpatched, patched_bits_required, num_exceptions as int, token, post);
            }
        }
    }
}

/// `v >> shift`, or zero once the shift reaches 32.
fn shr_u32(v: u32, shift: u32) -> (r: u32)
    ensures
        r == (if shift >= 32 {
            0
        } else {
            v >> shift
        }),
{
    if shift >= 32 {
        0
    } else {
        v >> shift
    }
}

/// Where `decode` stops for the block at the start of `buf`: after the
/// token, then 512 raw bytes for the raw token, or a vint for width 0 or the
/// packed ints, then two bytes per exception (reads past the end stay put).
pub open spec fn decode_len(buf: Seq<u8>) -> int {
    let len = buf.len() as int;
    let token = byte_at(buf, 0);
    let p1 = pos_after(0, 1, len);
    if token == RAW_TOKEN {
        p1 + 512
    } else {
        let p2 = if token & 0x1f == 0 {
            pos_after(p1, stream_varint_len(buf, p1, 0, 5), len)
        } else {
            p1 + 16 * (token & 0x1f)
        };
        pos_after(p2, 2 * (token >> 5u8), len)
    }
}

/// The bytes after a block's token.
pub open spec fn after_token(buf: Seq<u8>) -> Seq<u8> {
    buf.subrange(pos_after(0, 1, buf.len() as int), buf.len() as int)
}

/// Value `k` of a block before its exceptions: the raw word for the raw
/// token, the vint for width 0, the unpacked value otherwise.
pub open spec fn unpatched_value(buf: Seq<u8>, k: int) -> u32 {
    let token = byte_at(buf, 0);
    let p1 = pos_after(0, 1, buf.len() as int);
    if token == RAW_TOKEN {
        unpacked_value(32, after_token(buf), k)
    } else if token & 0x1f == 0 {
        vint_value(stream(buf, p1, stream_varint_len(buf, p1, 0, 5)))
    } else {
        unpacked_value((token & 0x1f) as u32, after_token(buf), k)
    }
}

/// Where a block's exceptions start.
pub open spec fn exceptions_start(buf: Seq<u8>) -> int {
    let token = byte_at(buf, 0);
    let p1 = pos_after(0, 1, buf.len() as int);
    if token & 0x1f == 0 {
        pos_after(p1, stream_varint_len(buf, p1, 0, 5), buf.len() as int)
    } else {
        p1 + 16 * (token & 0x1f)
    }
}

/// Value `k` after the first `e` exceptions: each `[index][high byte]`
/// pair ors the high byte, shifted past the width, into the value at its
/// index.
pub open spec fn patched_value(buf: Seq<u8>, k: int, e: int) -> u32
    decreases e,
{
    if e <= 0 {
        unpatched_value(buf, k)
    } else {
        let prev = patched_value(buf, k, e - 1);
        let p = pos_after(exceptions_start(buf), 2 * (e - 1), buf.len() as int);
        let idx = byte_at(buf, p);
        let hi = byte_at(buf, pos_after(p, 1, buf.len() as int));
        if idx == k {
            prev | ((hi as u32) << ((byte_at(buf, 0) & 0x1f) as u32))
        } else {
            prev
        }
    }
}

/// Value `k` that `decode` gives: the raw word for the raw token, else the
/// value with all the block's exceptions applied.
pub open spec fn block_value(buf: Seq<u8>, k: int) -> u32 {
    let token = byte_at(buf, 0);
    if token == RAW_TOKEN {
        unpatched_value(buf, k)
    } else {
        patched_value(buf, k, (token >> 5u8) as int)
    }
}

/// Decode one block into `out`; returns the bytes it took.
pub fn decode(input: &[u8], out: &mut [u32; BLOCK_SIZE]) -> (consumed: usize)
    ensures
        consumed == decode_len(input@),
        forall|k: int| 0 <= k < BLOCK_SIZE ==> #[trigger] final(out)@[k] == block_value(input@, k),
{
    let mut r = Reader::new(input);
    let token = r.read_byte();
    let ghost buf = input@;
    let ghost cond = |kk: int| 0 <= kk < BLOCK_SIZE;
    if token == RAW_TOKEN {
        let rest = tail_of(input, r.pos);
        assert(rest@ == after_token(buf));
        for_util::decode(32, rest, out);
        return r.pos + num_bytes(32);
    }
    let bpv: u32 = (token & 0x1f) as u32;
    let num_exceptions: usize = (token >> 5u8) as usize;
    assert(token & 0x1f <= 31 && token >> 5u8 <= 7) by (bit_vector);
    if bpv == 0 {
        let v = r.read_vint();
        let mut i: usize = 0;
        while i < BLOCK_SIZE
            invariant
                i <= BLOCK_SIZE,
                forall|j: int| 0 <= j < i ==> #[trigger] out@[j] == v,
            decreases BLOCK_SIZE - i,
        {
            out[i] = v;
            i = i + 1;
        }
    } else {
        let rest = tail_of(input, r.pos);
        assert(rest@ == after_token(buf));
        for_util::decode(bpv, rest, out);
        r.pos = r.pos + num_bytes(bpv);
    }
    let ghost p2 = r.pos as int;
    proof {
        assert(num_exceptions == token >> 5u8);
        assert(bpv == token & 0x1f);
        assert(p2 == exceptions_start(buf));
        assert forall|kk: int| cond(kk) implies #[trigger] out@[kk] == patched_value(buf, kk, 0) by {}
    }
    let mut k: usize = 0;
    while k < num_exceptions
        invariant
            k <= num_exceptions <= 7,
            num_exceptions == token >> 5u8,
            bpv == token & 0x1f,
            token == byte_at(buf, 0),
            token != RAW_TOKEN,
            buf == input@,
            bpv < 32,
            r.buf@ == input@,
            r.pos <= input@.len() + 512,
            p2 <= input@.len() + 512,
            p2 == exceptions_start(buf),
            r.pos == pos_after(p2, 2 * k, input@.len() as int),
            forall|kk: int| cond(kk) ==> #[trigger] out@[kk] == patched_value(buf, kk, k as int),
            cond == (|kk: int| 0 <= kk < BLOCK_SIZE),
        decreases num_exceptions - k,
    {
        let ghost p = r.pos as int;
        let idx = r.read_byte() as usize;
        let hi = r.read_byte() as u32;
        let ghost before = out@;
        if idx < BLOCK_SIZE {
            out[idx] = out[idx] | (hi << bpv);
        }
        proof {
            assert forall|kk: int| cond(kk) implies #[trigger] out@[kk] == patched_value(
                buf,
                kk,
                k + 1,
            ) by {
                assert(before[kk] == patched_value(buf, kk, k as int));
            }
        }
        k = k + 1;
    }
    r.pos
}

/// A block of 128 copies of one value below 256, as `encode` writes it (the
/// zero token, then the value's vint), reads back whatever bytes follow it:
/// `decode` gives the value at every index and stops after the vint, and
/// `skip` steps over the same bytes.
pub proof fn lemma_all_equal_block_round_trip(v: u32, post: Seq<u8>)
    requires
        v < 0x100,
    ensures
        ({
            let buf = seq![0u8] + vint_bytes(v) + post;
            &&& decode_len(buf) == 1 + vint_bytes(v).len()
            &&& skip_len(buf) == 1 + vint_bytes(v).len()
            &&& forall|k: int| 0 <= k < BLOCK_SIZE ==> #[trigger] block_value(buf, k) == v
        }),
{
    let w = vint_bytes(v);
    let buf = seq![0u8] + w + post;
    lemma_vint_read_written(seq![0u8], v, post);
    assert(vlong_bytes(v as u64) == w) by {
        reveal_with_fuel(vint_bytes, 3);
        reveal_with_fuel(vlong_bytes, 3);
        if v >= 0x80 {
            vstd::bits::lemma_u32_shr_is_div(v, 7);
            vstd::arithmetic::power2::lemma2_to64();
            assert(v >> 7 < 0x80) by (nonlinear_arith)
                requires
                    v < 0x100,
                    v >> 7 == v as nat / vstd::arithmetic::power2::pow2(7),
                    vstd::arithmetic::power2::pow2(7) == 128,
            {
            }
        }
    }
    lemma_vlong_read_written(seq![0u8], v as u64, post);
    assert(byte_at(buf, 0) == 0u8);
    vstd::bits::lemma_u8_shr_is_div(0u8, 5u8);
    vstd::bits::lemma_u8_low_bits_mask_is_mod(0u8, 5);
    vstd::arithmetic::power2::lemma2_to64();
    assert(vstd::bits::low_bits_mask(5) == 0x1f);
    assert((0u8 >> 5u8) == 0u8);
    assert((0u8 & 0x1fu8) == 0u8);
    assert forall|k: int| 0 <= k < BLOCK_SIZE implies #[trigger] block_value(buf, k) == v by {
        assert(patched_value(buf, k, 0) == unpatched_value(buf, k));
    }
}

/// A raw block, as `encode` writes it (the token `0xff`, then the 128 ints
/// little-endian), reads back whatever bytes follow it: `decode` gives the
/// ints and stops after them, and `skip` steps over the same 513 bytes.
pub proof fn lemma_raw_block_round_trip(ints: Seq<u32>, post: Seq<u8>)
    requires
        ints.len() == BLOCK_SIZE,
    ensures
        ({
            let buf = seq![RAW_TOKEN] + words_le(ints) + post;
            &&& decode_len(buf) == 513
            &&& skip_len(buf) == 513
            &&& forall|k: int| 0 <= k < BLOCK_SIZE ==> #[trigger] block_value(buf, k) == ints[k]
        }),
{
    let w = words_le(ints);
    let buf = seq![RAW_TOKEN] + w + post;
    crate::bytes::lemma_words_le(ints);
    assert(byte_at(buf, 0) == RAW_TOKEN);
    assert(after_token(buf) =~= w + post);
    assert forall|k: int| 0 <= k < BLOCK_SIZE implies #[trigger] block_value(buf, k) == ints[k] by {
        for_util::lemma_raw_round_trip(ints, post, k);
    }
}

/// The bytes of `input` from `pos` on, empty past the end.
pub(crate) fn tail_of(input: &[u8], pos: usize) -> (rest: &[u8])
    ensures
        pos <= input@.len() ==> rest@ == input@.subrange(pos as int, input@.len() as int),
        pos > input@.len() ==> rest@.len() == 0,
{
    if pos <= input.len() {
        &input[pos..input.len()]
    } else {
        &input[0..0]
    }
}

/// Bytes the block at the start of `input` takes, without decoding it.
pub fn skip(input: &[u8]) -> (r: usize)
    requires
        input@.len() + 1024 < usize::MAX,
    ensures
        r == skip_len(input@),
{
    let mut r = Reader::new(input);
    let token = r.read_byte();
    if token == RAW_TOKEN {
        return r.pos + num_bytes(32);
    }
    let bpv: u32 = (token & 0x1f) as u32;
    let num_exceptions: usize = (token >> 5u8) as usize;
    assert(token & 0x1f <= 31 && token >> 5u8 <= 7) by (bit_vector);
    if bpv == 0 {
        let _ = r.read_vlong();
        r.pos + num_exceptions * 2
    } else {
        r.pos + num_bytes(bpv) + num_exceptions * 2
    }
}

/// Every value equals the first.
fn all_equal(ints: &[u32; BLOCK_SIZE]) -> (r: bool)
    ensures
        r == (forall|i: int| 0 <= i < BLOCK_SIZE ==> #[trigger] ints@[i] == ints@[0]),
{
    let mut i: usize = 0;
    while i < BLOCK_SIZE
        invariant
            i <= BLOCK_SIZE,
            forall|j: int| 0 <= j < i ==> #[trigger] ints@[j] == ints@[0],
        decreases BLOCK_SIZE - i,
    {
        if ints[i] != ints[0] {
            return false;
        }
        i = i + 1;
    }
    true
}

/// Entry `i` of an 8-entry heap is no larger than its children.
pub open spec fn heap_ordered_at(h: Seq<u32>, i: int) -> bool {
    &&& 2 * i + 1 < 8 ==> h[i] <= h[2 * i + 1]
    &&& 2 * i + 2 < 8 ==> h[i] <= h[2 * i + 2]
}

/// Every entry from `start` on is no larger than its children.
pub open spec fn heap_ordered_from(h: Seq<u32>, start: int) -> bool {
    forall|j: int| start <= j < 8 ==> #[trigger] heap_ordered_at(h, j)
}

/// All 8 entries are equal.
pub open spec fn all_same(h: Seq<u32>) -> bool {
    forall|j: int| 0 <= j < 8 ==> #[trigger] h[j] == h[0]
}

/// Make the 8 entries a min-heap, keeping the same values.
fn min_heapify(heap: &mut [u32; 8])
    ensures
        final(heap)@.to_multiset() == old(heap)@.to_multiset(),
        heap_ordered_from(final(heap)@, 0),
        all_same(old(heap)@) ==> final(heap)@ == old(heap)@,
{
    let mut i: usize = 4;
    while i > 0
        invariant
            i <= 4,
            heap@.to_multiset() == old(heap)@.to_multiset(),
            heap_ordered_from(heap@, i as int),
            all_same(old(heap)@) ==> heap@ == old(heap)@,
        decreases i,
    {
        i = i - 1;
        sift_down(heap, i);
    }
}

/// Swapping two entries keeps the values.
proof fn lemma_swap_multiset(h: Seq<u32>, i: int, j: int)
    requires
        0 <= i < h.len(),
        0 <= j < h.len(),
        i != j,
    ensures
        h.update(i, h[j]).update(j, h[i]).to_multiset() == h.to_multiset(),
{
    broadcast use {
        vstd::multiset::group_multiset_properties,
        vstd::multiset::group_multiset_axioms,
    };
    let m = h.to_multiset();
    let h1 = h.update(i, h[j]);
    vstd::seq_lib::to_multiset_update(h, i, h[j]);
    vstd::seq_lib::to_multiset_update(h1, j, h[i]);
    assert(h1[j] == h[j]);
    vstd::seq_lib::to_multiset_contains(h, h[i]);
    vstd::seq_lib::to_multiset_contains(h, h[j]);
    assert(m.insert(h[j]).remove(h[i]).insert(h[i]).remove(h[j]) =~= m);
}

/// Move the entry at `start` down until it is no larger than its children.
/// The values stay the same, entries before `start` stay put, and a heap
/// below `start` becomes a heap from `start`.
fn sift_down(heap: &mut [u32; 8], start: usize)
    requires
        start < 8,
    ensures
        final(heap)@.to_multiset() == old(heap)@.to_multiset(),
        forall|j: int| 0 <= j < start ==> #[trigger] final(heap)@[j] == old(heap)@[j],
        heap_ordered_from(old(heap)@, start + 1) ==> heap_ordered_from(final(heap)@, start as int),
        all_same(old(heap)@) ==> final(heap)@ == old(heap)@,
{
    let ghost ordered_below = heap_ordered_from(heap@, start + 1);
    let len: usize = 8;
    let mut i = start;
    let ghost mut par: int = 0;
    loop
        invariant
            start <= i < 8,
            len == 8,
            heap@.to_multiset() == old(heap)@.to_multiset(),
            forall|j: int| 0 <= j < start ==> #[trigger] heap@[j] == old(heap)@[j],
            ordered_below == heap_ordered_from(old(heap)@, start + 1),
            i > start ==> start <= par < i && (i == 2 * par + 1 || i == 2 * par + 2),
            ordered_below ==> forall|j: int|
                start <= j < 8 && j != i ==> #[trigger] heap_ordered_at(heap@, j),
            ordered_below && i > start ==> (2 * i + 1 < 8 ==> heap@[par] <= heap@[2 * i + 1]) && (2
                * i + 2 < 8 ==> heap@[par] <= heap@[2 * i + 2]),
            all_same(old(heap)@) ==> heap@ == old(heap)@,
        ensures
            heap@.to_multiset() == old(heap)@.to_multiset(),
            forall|j: int| 0 <= j < start ==> #[trigger] heap@[j] == old(heap)@[j],
            ordered_below ==> heap_ordered_from(heap@, start as int),
            all_same(old(heap)@) ==> heap@ == old(heap)@,
        decreases 8 - i,
    {
        let left = 2 * i + 1;
        let right = left + 1;
        let mut smallest = i;
        if left < len && heap[left] < heap[smallest] {
            smallest = left;
        }
        if right < len && heap[right] < heap[smallest] {
            smallest = right;
        }
        if smallest == i {
            proof {
                if ordered_below {
                    assert(heap_ordered_at(heap@, i as int));
                }
            }
            break;
        }
        let ghost h = heap@;
        let a = heap[i];
        let b = heap[smallest];
        heap[i] = b;
        heap[smallest] = a;
        proof {
            assert(heap@ == h.update(i as int, h[smallest as int]).update(smallest as int, h[i as int]));
            lemma_swap_multiset(h, i as int, smallest as int);
            if ordered_below {
                let s = smallest as int;
                assert(heap_ordered_at(h, s));
                assert forall|j: int| start <= j < 8 && j != s implies #[trigger] heap_ordered_at(heap@, j) by {
                    if j == i {
                        assert(h[s] <= h[i as int]);
                        assert(2 * j + 1 < 8 ==> h[s] <= h[2 * j + 1]);
                        assert(2 * j + 2 < 8 ==> h[s] <= h[2 * j + 2]);
                    } else if i > start && j == par {
                        assert(heap_ordered_at(h, par));
                        assert(h[par] <= h[s]);
                    } else {
                        assert(heap_ordered_at(h, j));
                    }
                }
            }
            par = i as int;
        }
        i = smallest;
    }
}

} // verus!
