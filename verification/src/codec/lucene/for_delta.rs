//! Lucene 10.3.1 `ForDeltaUtil`: FOR of strictly-positive deltas, then a
//! prefix sum. Primitive-width thresholds (8 at bpv <= 3, 16 at <= 10, else
//! 32) differ from `for_util` because the prefix sum runs in packed lanes
//! and must not overflow a lane.

use vstd::prelude::*;

use super::for_util::{
    band, bands_len, decode3_tail, decode9_tail, decode10_tail, low_mask, raw_words, split_at,
    split_word, packed_word, stitched, unpacked_value, words_pos, MASK8_1, MASK8_2, MASK8_3, MASK16_9, MASK16_10,
    self, BLOCK_SIZE, MASK16_1, MASK16_2, MASK16_4, MASK16_5, MASK16_6, MASK16_7, MASK16_8,
    MASK32_1, MASK32_2, MASK32_3, MASK32_4, MASK32_5, MASK32_6, MASK32_7, MASK32_8, MASK32_9,
    MASK32_10, MASK32_11, MASK32_12, MASK32_13, MASK32_14, MASK32_15, MASK32_16, decode1, decode2,
    decode3, decode9, decode10, decode_slow, expand8, expand16, split_ints, split_ints_tmp,
};
use super::io::Reader;
use crate::bytes::words_le;

verus! {

/// Bitwise or of every value.
pub open spec fn or_all(s: Seq<u32>) -> u32
    decreases s.len(),
{
    if s.len() == 0 {
        0
    } else {
        or_all(s.drop_last()) | s.last()
    }
}

/// A value fits under a shift exactly when the or of all does.
pub proof fn lemma_or_all_fits(s: Seq<u32>, r: u32)
    ensures
        (or_all(s) >> r == 0) <==> (forall|i: int| 0 <= i < s.len() ==> #[trigger] s[i] >> r == 0),
    decreases s.len(),
{
    if s.len() > 0 {
        let t = s.drop_last();
        lemma_or_all_fits(t, r);
        let a = or_all(t);
        let b = s.last();
        assert(((a | b) >> r == 0) <==> (a >> r == 0 && b >> r == 0)) by (bit_vector);
        if or_all(s) >> r == 0 {
            assert forall|i: int| 0 <= i < s.len() implies #[trigger] s[i] >> r == 0 by {
                if i < t.len() {
                    assert(t[i] == s[i]);
                }
            }
        }
        if forall|i: int| 0 <= i < s.len() ==> #[trigger] s[i] >> r == 0 {
            assert forall|i: int| 0 <= i < t.len() implies #[trigger] t[i] >> r == 0 by {
                assert(t[i] == s[i]);
            }
            assert(s[s.len() - 1] >> r == 0);
        }
    } else {
        assert(0u32 >> r == 0) by (bit_vector);
    }
}

/// Bits the widest delta needs: every delta fits in the result, and for a
/// result above one some delta needs all of it.
pub fn bits_required(deltas: &[u32; BLOCK_SIZE]) -> (r: u32)
    ensures
        1 <= r <= 32,
        r < 32 ==> forall|i: int| 0 <= i < BLOCK_SIZE ==> #[trigger] deltas@[i] >> r == 0,
        r > 1 ==> exists|i: int| 0 <= i < BLOCK_SIZE && #[trigger] deltas@[i] >> ((r - 1) as u32) != 0,
{
    let mut acc: u32 = 0;
    let mut i: usize = 0;
    while i < BLOCK_SIZE
        invariant
            i <= BLOCK_SIZE,
            acc == or_all(deltas@.subrange(0, i as int)),
        decreases BLOCK_SIZE - i,
    {
        proof {
            assert(deltas@.subrange(0, i + 1).drop_last() =~= deltas@.subrange(0, i as int));
        }
        acc = acc | deltas[i];
        i = i + 1;
    }
    assert(deltas@.subrange(0, 128) =~= deltas@);
    let r = for_util::bits_required(acc);
    proof {
        if r < 32 {
            lemma_or_all_fits(deltas@, r);
        }
        if r > 1 {
            lemma_or_all_fits(deltas@, (r - 1) as u32);
        }
    }
    r
}

/// Encode 128 deltas at `bpv` bits each with this format's lane widths.
pub fn encode_deltas(bpv: u32, deltas: &[u32; BLOCK_SIZE], out: &mut Vec<u8>)
    requires
        1 <= bpv <= 32,
    ensures
        final(out)@.len() == old(out)@.len() + 16 * bpv,
        final(out)@.subrange(0, old(out)@.len() as int) == old(out)@,
        bpv == 32 ==> final(out)@ == old(out)@ + words_le(deltas@),
        final(out)@ == old(out)@ + delta_bytes(deltas@, bpv),
{
    let mut collapsed = *deltas;
    let primitive: u32 = if bpv <= 3 {
        for_util::collapse8(&mut collapsed);
        8
    } else if bpv <= 10 {
        for_util::collapse16(&mut collapsed);
        16
    } else {
        32
    };
    assert(collapsed@ =~= for_util::collapsed_lanes(deltas@, delta_primitive(bpv)));
    for_util::encode_with_primitive(&collapsed, bpv, primitive, out);
}

/// The lane width this format packs deltas at: bytes up to 3 bits, halves
/// up to 10, whole words above.
pub open spec fn delta_primitive(bpv: u32) -> u32 {
    if bpv <= 3 {
        8
    } else if bpv <= 10 {
        16
    } else {
        32
    }
}

/// The bytes `encode_deltas` appends for a block at `bpv` bits.
pub open spec fn delta_bytes(deltas: Seq<u32>, bpv: u32) -> Seq<u8> {
    words_le(
        for_util::packed_block(
            for_util::collapsed_lanes(deltas, delta_primitive(bpv)),
            bpv,
            delta_primitive(bpv),
        ),
    )
}

/// Where this format's lane width agrees with ForUtil's (1 to 3, 9 and 10,
/// and 17 to 32 bits), `encode_deltas` writes exactly the bytes
/// `for_util::encode` writes for the same values.
pub proof fn lemma_delta_bytes_match_for_util(deltas: Seq<u32>, bpv: u32)
    requires
        1 <= bpv <= 32,
        bpv <= 3 || 9 <= bpv <= 10 || 17 <= bpv,
    ensures
        delta_bytes(deltas, bpv) == for_util::for_bytes(deltas, bpv),
{
}

/// The byte-lane prefix sum of a block that starts with the words of `block`.
fn prefix_bytes(out: &mut [u32; BLOCK_SIZE], base: u32, Ghost(block): Ghost<Seq<u32>>)
    requires
        forall|i: int| 0 <= i < 32 ==> #[trigger] old(out)@[i] == block[i],
    ensures
        forall|k: int|
            0 <= k < BLOCK_SIZE ==> #[trigger] final(out)@[k] == lane8_sum(block, k).wrapping_add(
                quarter_offset8(block, base, k / 32),
            ),
{
    let ghost mid = out@;
    prefix_sum8(out, base);
    proof {
        lemma_prefix8_agree(mid, block, base);
    }
}

/// The half-word-lane prefix sum of a block that starts with the words of
/// `block`.
fn prefix_halves(out: &mut [u32; BLOCK_SIZE], base: u32, Ghost(block): Ghost<Seq<u32>>)
    requires
        forall|i: int| 0 <= i < 64 ==> #[trigger] old(out)@[i] == block[i],
    ensures
        forall|k: int|
            0 <= k < BLOCK_SIZE ==> #[trigger] final(out)@[k] == lane16_sum(block, k).wrapping_add(
                if k < 64 {
                    base
                } else {
                    base.wrapping_add(lane16_sum(block, 63))
                },
            ),
{
    let ghost mid = out@;
    prefix_sum16(out, base);
    proof {
        lemma_prefix16_agree(mid, block);
        assert(lane16_sum(mid, 63) == lane16_sum(block, 63));
    }
}

/// The running sums of a block whose first `n` words are those of `block`.
fn prefix_words(out: &mut [u32; BLOCK_SIZE], base: u32, Ghost(block): Ghost<Seq<u32>>, Ghost(n): Ghost<int>)
    requires
        n <= BLOCK_SIZE,
        forall|i: int| 0 <= i < n ==> #[trigger] old(out)@[i] == block[i],
    ensures
        forall|k: int| 0 <= k < n ==> #[trigger] final(out)@[k] == running_sum(block, base, k),
{
    let ghost mid = out@;
    prefix_sum32(out, base);
    proof {
        assert forall|k: int| 0 <= k < n implies #[trigger] out@[k] == running_sum(block, base, k) by {
            lemma_running_sum_agree(mid, block, base, k);
        }
    }
}

/// Decode 128 deltas packed at `bpv` bits and replace them by their running
/// sums from `base` (wrapping).
#[verifier::spinoff_prover]
pub fn decode_and_prefix_sum(bpv: u32, input: &[u8], base: u32, out: &mut [u32; BLOCK_SIZE])
    requires
        1 <= bpv <= 32,
    ensures
        forall|k: int|
            0 <= k < BLOCK_SIZE ==> #[trigger] final(out)@[k] == prefix_value(bpv, input@, base, k),
{
    let mut r = Reader::new(input);
    let mut tmp: [u32; BLOCK_SIZE] = [0u32; BLOCK_SIZE];
    let ghost before = out@;
    let ghost block = delta_block(bpv, input@);
    match bpv {
        1 => {
            decode1(&mut r, out);
            proof {
                assert forall|k: int| 0 <= k < 32 implies #[trigger] out@[k] == block[k] by {
                    assert(out@[k] == split_at(before, raw_words(input@, 0, 4), 4, 7, 1, MASK8_1, 28, MASK8_1, k));
                }
            }
            prefix_bytes(out, base, Ghost(block));
        },
        2 => {
            decode2(&mut r, out);
            proof {
                assert forall|k: int| 0 <= k < 32 implies #[trigger] out@[k] == block[k] by {
                    assert(out@[k] == split_at(before, raw_words(input@, 0, 8), 8, 6, 2, MASK8_2, 24, MASK8_2, k));
                }
            }
            prefix_bytes(out, base, Ghost(block));
        },
        3 => {
            decode3(&mut r, &mut tmp, out);
            proof {
                assert forall|k: int| 0 <= k < 32 implies #[trigger] out@[k] == block[k] by {
                    if k >= 24 {
                        let kk = (k - 24) / 2;
                        let j = (k - 24) % 2;
                        assert(24 + 2 * kk + j == k);
                        assert(out@[24 + 2 * kk + j] == decode3_tail(raw_words(input@, 0, 12), kk, j));
                    } else {
                        assert(out@[k] == band(raw_words(input@, 0, 12), 12, 5, 3, MASK8_3, k));
                    }
                }
            }
            prefix_bytes(out, base, Ghost(block));
        },
        4 => {
            decode4_to16(&mut r, out);
            proof {
                assert forall|k: int| 0 <= k < 64 implies #[trigger] out@[k] == block[k] by {
                    assert(out@[k] == split_at(before, raw_words(input@, 0, 16), 16, 12, 4, MASK16_4, 48, MASK16_4, k));
                }
            }
            prefix_halves(out, base, Ghost(block));
        },
        5 => {
            decode5_to16(&mut r, &mut tmp, out);
            proof {
                assert forall|k: int| 0 <= k < 64 implies #[trigger] out@[k] == block[k] by {
                    if k >= 60 {
                        assert(out@[60 + 1 * (k - 60) + 0] == decode5_to16_tail(raw_words(input@, 0, 20), k - 60, 0));
                    } else {
                        assert(out@[k] == band(raw_words(input@, 0, 20), 20, 11, 5, MASK16_5, k));
                    }
                }
            }
            prefix_halves(out, base, Ghost(block));
        },
        6 => {
            decode6_to16(&mut r, &mut tmp, out);
            proof {
                assert forall|k: int| 0 <= k < 64 implies #[trigger] out@[k] == block[k] by {
                    if k >= 48 {
                        let kk = (k - 48) / 2;
                        let j = (k - 48) % 2;
                        assert(48 + 2 * kk + j == k);
                        assert(out@[48 + 2 * kk + j] == decode6_to16_tail(raw_words(input@, 0, 24), kk, j));
                    } else {
                        assert(out@[k] == band(raw_words(input@, 0, 24), 24, 10, 6, MASK16_6, k));
                    }
                }
            }
            prefix_halves(out, base, Ghost(block));
        },
        7 => {
            decode7_to16(&mut r, &mut tmp, out);
            proof {
                assert forall|k: int| 0 <= k < 64 implies #[trigger] out@[k] == block[k] by {
                    if k >= 56 {
                        let kk = (k - 56) / 2;
                        let j = (k - 56) % 2;
                        assert(56 + 2 * kk + j == k);
                        assert(out@[56 + 2 * kk + j] == decode7_to16_tail(raw_words(input@, 0, 28), kk, j));
                    } else {
                        assert(out@[k] == band(raw_words(input@, 0, 28), 28, 9, 7, MASK16_7, k));
                    }
                }
            }
            prefix_halves(out, base, Ghost(block));
        },
        8 => {
            decode8_to16(&mut r, out);
            proof {
                assert forall|k: int| 0 <= k < 64 implies #[trigger] out@[k] == block[k] by {
                    assert(out@[k] == split_at(before, raw_words(input@, 0, 32), 32, 8, 8, MASK16_8, 32, MASK16_8, k));
                }
            }
            prefix_halves(out, base, Ghost(block));
        },
        9 => {
            decode9(&mut r, &mut tmp, out);
            proof {
                assert forall|k: int| 0 <= k < 64 implies #[trigger] out@[k] == block[k] by {
                    if k >= 36 {
                        let kk = (k - 36) / 7;
                        let j = (k - 36) % 7;
                        assert(36 + 7 * kk + j == k);
                        assert(out@[36 + 7 * kk + j] == decode9_tail(raw_words(input@, 0, 36), kk, j));
                    } else {
                        assert(out@[k] == band(raw_words(input@, 0, 36), 36, 7, 9, MASK16_9, k));
                    }
                }
            }
            prefix_halves(out, base, Ghost(block));
        },
        10 => {
            decode10(&mut r, &mut tmp, out);
            proof {
                assert forall|k: int| 0 <= k < 64 implies #[trigger] out@[k] == block[k] by {
                    if k >= 40 {
                        let kk = (k - 40) / 3;
                        let j = (k - 40) % 3;
                        assert(40 + 3 * kk + j == k);
                        assert(out@[40 + 3 * kk + j] == decode10_tail(raw_words(input@, 0, 40), kk, j));
                    } else {
                        assert(out@[k] == band(raw_words(input@, 0, 40), 40, 6, 10, MASK16_10, k));
                    }
                }
            }
            prefix_halves(out, base, Ghost(block));
        },
        11 => {
            decode11_to32(&mut r, &mut tmp, out);
            proof {
                assert forall|k: int| 0 <= k < 128 implies #[trigger] out@[k] == block[k] by {
                    if k >= 88 {
                        let kk = (k - 88) / 10;
                        let j = (k - 88) % 10;
                        assert(88 + 10 * kk + j == k);
                        assert(out@[88 + 10 * kk + j] == decode11_to32_tail(raw_words(input@, 0, 44), kk, j));
                    } else {
                        assert(out@[k] == band(raw_words(input@, 0, 44), 44, 21, 11, MASK32_11, k));
                    }
                }
            }
            prefix_words(out, base, Ghost(block), Ghost(128));
        },
        12 => {
            decode12_to32(&mut r, &mut tmp, out);
            proof {
                assert forall|k: int| 0 <= k < 128 implies #[trigger] out@[k] == block[k] by {
                    if k >= 96 {
                        let kk = (k - 96) / 2;
                        let j = (k - 96) % 2;
                        assert(96 + 2 * kk + j == k);
                        assert(out@[96 + 2 * kk + j] == decode12_to32_tail(raw_words(input@, 0, 48), kk, j));
                    } else {
                        assert(out@[k] == band(raw_words(input@, 0, 48), 48, 20, 12, MASK32_12, k));
                    }
                }
            }
            prefix_words(out, base, Ghost(block), Ghost(128));
        },
        13 => {
            decode13_to32(&mut r, &mut tmp, out);
            proof {
                assert forall|k: int| 0 <= k < 128 implies #[trigger] out@[k] == block[k] by {
                    if k >= 104 {
                        let kk = (k - 104) / 6;
                        let j = (k - 104) % 6;
                        assert(104 + 6 * kk + j == k);
                        assert(out@[104 + 6 * kk + j] == decode13_to32_tail(raw_words(input@, 0, 52), kk, j));
                    } else {
                        assert(out@[k] == band(raw_words(input@, 0, 52), 52, 19, 13, MASK32_13, k));
                    }
                }
            }
            prefix_words(out, base, Ghost(block), Ghost(128));
        },
        14 => {
            decode14_to32(&mut r, &mut tmp, out);
            proof {
                assert forall|k: int| 0 <= k < 128 implies #[trigger] out@[k] == block[k] by {
                    if k >= 112 {
                        let kk = (k - 112) / 2;
                        let j = (k - 112) % 2;
                        assert(112 + 2 * kk + j == k);
                        assert(out@[112 + 2 * kk + j] == decode14_to32_tail(raw_words(input@, 0, 56), kk, j));
                    } else {
                        assert(out@[k] == band(raw_words(input@, 0, 56), 56, 18, 14, MASK32_14, k));
                    }
                }
            }
            prefix_words(out, base, Ghost(block), Ghost(128));
        },
        15 => {
            decode15_to32(&mut r, &mut tmp, out);
            proof {
                assert forall|k: int| 0 <= k < 128 implies #[trigger] out@[k] == block[k] by {
                    if k >= 120 {
                        let kk = (k - 120) / 2;
                        let j = (k - 120) % 2;
                        assert(120 + 2 * kk + j == k);
                        assert(out@[120 + 2 * kk + j] == decode15_to32_tail(raw_words(input@, 0, 60), kk, j));
                    } else {
                        assert(out@[k] == band(raw_words(input@, 0, 60), 60, 17, 15, MASK32_15, k));
                    }
                }
            }
            prefix_words(out, base, Ghost(block), Ghost(128));
        },
        16 => {
            decode16_to32(&mut r, out);
            proof {
                assert forall|k: int| 0 <= k < 128 implies #[trigger] out@[k] == block[k] by {
                    assert(out@[k] == split_at(before, raw_words(input@, 0, 64), 64, 16, 16, MASK32_16, 64, MASK32_16, k));
                }
            }
            prefix_words(out, base, Ghost(block), Ghost(128));
        },
        _ => {
            decode_slow(bpv, &mut r, &mut tmp, out);
            proof {
                assert forall|k: int| 0 <= k < 128 implies #[trigger] out@[k] == block[k] by {
                    if k < 4 * bpv {
                        assert(out@[k] == band(raw_words(input@, 0, 4 * bpv), 4 * bpv, (32 - bpv) as u32, 32, low_mask(bpv), k));
                    } else {
                        assert(out@[k] == stitched(raw_words(input@, 0, 4 * bpv), bpv, k - 4 * bpv));
                    }
                }
            }
            prefix_words(out, base, Ghost(block), Ghost(128));
        },
    }
}

/// Running sums from `base`, wrapping: entry `i` is `base` plus the first
/// `i + 1` values.
pub open spec fn running_sum(s: Seq<u32>, base: u32, i: int) -> u32
    decreases i + 1,
{
    if i < 0 {
        base
    } else {
        running_sum(s, base, i - 1).wrapping_add(s[i])
    }
}

/// Replace the first `len` entries by their running sums from `base`.
fn prefix_sum(arr: &mut [u32; BLOCK_SIZE], len: usize, base: u32)
    requires
        len <= BLOCK_SIZE,
    ensures
        forall|i: int|
            0 <= i < len ==> #[trigger] final(arr)@[i] == running_sum(old(arr)@, base, i),
        forall|i: int| len <= i < BLOCK_SIZE ==> #[trigger] final(arr)@[i] == old(arr)@[i],
{
    let mut sum = base;
    let mut i: usize = 0;
    while i < len
        invariant
            len <= BLOCK_SIZE,
            i <= len,
            sum == running_sum(old(arr)@, base, i - 1),
            forall|j: int| 0 <= j < i ==> #[trigger] arr@[j] == running_sum(old(arr)@, base, j),
            forall|j: int| i <= j < BLOCK_SIZE ==> #[trigger] arr@[j] == old(arr)@[j],
        decreases len - i,
    {
        sum = sum.wrapping_add(arr[i]);
        arr[i] = sum;
        i = i + 1;
    }
}

/// Byte lane `k / 32` (most significant first) of the packed running sum of
/// the first `k % 32 + 1` words.
pub open spec fn lane8_sum(s: Seq<u32>, k: int) -> u32 {
    let w = running_sum(s, 0, k % 32);
    if k < 32 {
        (w >> 24u32) & 0xff
    } else if k < 64 {
        (w >> 16u32) & 0xff
    } else if k < 96 {
        (w >> 8u32) & 0xff
    } else {
        w & 0xff
    }
}

/// What `prefix_sum8` adds to quarter `q`: `base` plus the last lane sum of
/// every quarter before it (wrapping).
pub open spec fn quarter_offset8(s: Seq<u32>, base: u32, q: int) -> u32
    decreases q,
{
    if q <= 0 {
        base
    } else {
        quarter_offset8(s, base, q - 1).wrapping_add(lane8_sum(s, 32 * q - 1))
    }
}

/// Prefix sum over 8-bit lanes: lane sums, spread, then each quarter offset
/// by the totals before it.
fn prefix_sum8(arr: &mut [u32; BLOCK_SIZE], base: u32)
    ensures
        forall|k: int|
            0 <= k < BLOCK_SIZE ==> #[trigger] final(arr)@[k] == lane8_sum(old(arr)@, k).wrapping_add(
                quarter_offset8(old(arr)@, base, k / 32),
            ),
{
    let ghost s = arr@;
    prefix_sum(arr, 32, 0);
    let ghost a1 = arr@;
    expand8(arr);
    let ghost a2 = arr@;
    proof {
        assert forall|k: int| 0 <= k < BLOCK_SIZE implies #[trigger] a2[k] == lane8_sum(s, k) by {
            let i = k % 32;
            assert(a1[i] == running_sum(s, 0, i));
            assert(a2[i] == (a1[i] >> 24u32) & 0xff);
        }
    }
    let l0 = base;
    let l1 = l0.wrapping_add(arr[31]);
    let l2 = l1.wrapping_add(arr[63]);
    let l3 = l2.wrapping_add(arr[95]);
    assert(a2[31] == lane8_sum(s, 31));
    assert(a2[63] == lane8_sum(s, 63));
    assert(a2[95] == lane8_sum(s, 95));
    assert(quarter_offset8(s, base, 0) == base);
    assert(l1 == quarter_offset8(s, base, 1));
    assert(l2 == quarter_offset8(s, base, 2));
    assert(l3 == quarter_offset8(s, base, 3));
    let mut i: usize = 0;
    while i < 32
        invariant
            i <= 32,
            forall|j: int|
                0 <= j < i ==> {
                    &&& #[trigger] arr@[j] == a2[j].wrapping_add(l0)
                    &&& arr@[32 + j] == a2[32 + j].wrapping_add(l1)
                    &&& arr@[64 + j] == a2[64 + j].wrapping_add(l2)
                    &&& arr@[96 + j] == a2[96 + j].wrapping_add(l3)
                },
            forall|j: int|
                i <= j < 32 ==> {
                    &&& #[trigger] arr@[j] == a2[j]
                    &&& arr@[32 + j] == a2[32 + j]
                    &&& arr@[64 + j] == a2[64 + j]
                    &&& arr@[96 + j] == a2[96 + j]
                },
        decreases 32 - i,
    {
        let ghost prev = arr@;
        arr[i] = arr[i].wrapping_add(l0);
        arr[32 + i] = arr[32 + i].wrapping_add(l1);
        arr[64 + i] = arr[64 + i].wrapping_add(l2);
        arr[96 + i] = arr[96 + i].wrapping_add(l3);
        proof {
            assert forall|j: int| 0 <= j < i + 1 implies {
                &&& #[trigger] arr@[j] == a2[j].wrapping_add(l0)
                &&& arr@[32 + j] == a2[32 + j].wrapping_add(l1)
                &&& arr@[64 + j] == a2[64 + j].wrapping_add(l2)
                &&& arr@[96 + j] == a2[96 + j].wrapping_add(l3)
            } by {
                if j < i {
                    assert(prev[j] == a2[j].wrapping_add(l0));
                }
            }
            assert forall|j: int| i + 1 <= j < 32 implies {
                &&& #[trigger] arr@[j] == a2[j]
                &&& arr@[32 + j] == a2[32 + j]
                &&& arr@[64 + j] == a2[64 + j]
                &&& arr@[96 + j] == a2[96 + j]
            } by {
                assert(prev[j] == a2[j]);
            }
        }
        i = i + 1;
    }
    proof {
        assert forall|k: int| 0 <= k < BLOCK_SIZE implies #[trigger] arr@[k] == lane8_sum(s, k).wrapping_add(
            quarter_offset8(s, base, k / 32),
        ) by {
            let j = k % 32;
            assert(arr@[j] == a2[j].wrapping_add(l0));
            assert(a2[k] == lane8_sum(s, k));
        }
    }
}

/// Half-word lane `k / 64` (upper first) of the packed running sum of the
/// first `k % 64 + 1` words.
pub open spec fn lane16_sum(s: Seq<u32>, k: int) -> u32 {
    let w = running_sum(s, 0, k % 64);
    if k < 64 {
        (w >> 16u32) & 0xffff
    } else {
        w & 0xffff
    }
}

/// Prefix sum over 16-bit lanes: lane sums, spread, then the second half
/// offset by the first half's total.
fn prefix_sum16(arr: &mut [u32; BLOCK_SIZE], base: u32)
    ensures
        forall|k: int|
            0 <= k < BLOCK_SIZE ==> #[trigger] final(arr)@[k] == lane16_sum(old(arr)@, k).wrapping_add(
                if k < 64 {
                    base
                } else {
                    base.wrapping_add(lane16_sum(old(arr)@, 63))
                },
            ),
{
    let ghost s = arr@;
    prefix_sum(arr, 64, 0);
    let ghost a1 = arr@;
    expand16(arr);
    let ghost a2 = arr@;
    proof {
        assert forall|k: int| 0 <= k < BLOCK_SIZE implies #[trigger] a2[k] == lane16_sum(s, k) by {
            let i = k % 64;
            assert(a1[i] == running_sum(s, 0, i));
            assert(a2[i] == (a1[i] >> 16u32) & 0xffff);
        }
    }
    let l0 = base;
    let l1 = base.wrapping_add(arr[63]);
    assert(a2[63] == lane16_sum(s, 63));
    let mut i: usize = 0;
    while i < 64
        invariant
            i <= 64,
            forall|j: int|
                0 <= j < i ==> {
                    &&& #[trigger] arr@[j] == a2[j].wrapping_add(l0)
                    &&& arr@[64 + j] == a2[64 + j].wrapping_add(l1)
                },
            forall|j: int|
                i <= j < 64 ==> {
                    &&& #[trigger] arr@[j] == a2[j]
                    &&& arr@[64 + j] == a2[64 + j]
                },
        decreases 64 - i,
    {
        let ghost prev = arr@;
        arr[i] = arr[i].wrapping_add(l0);
        arr[64 + i] = arr[64 + i].wrapping_add(l1);
        proof {
            assert forall|j: int| 0 <= j < i + 1 implies {
                &&& #[trigger] arr@[j] == a2[j].wrapping_add(l0)
                &&& arr@[64 + j] == a2[64 + j].wrapping_add(l1)
            } by {
                if j < i {
                    assert(prev[j] == a2[j].wrapping_add(l0));
                }
            }
            assert forall|j: int| i + 1 <= j < 64 implies {
                &&& #[trigger] arr@[j] == a2[j]
                &&& arr@[64 + j] == a2[64 + j]
            } by {
                assert(prev[j] == a2[j]);
            }
        }
        i = i + 1;
    }
    proof {
        assert forall|k: int| 0 <= k < BLOCK_SIZE implies #[trigger] arr@[k] == lane16_sum(s, k).wrapping_add(
            if k < 64 {
                base
            } else {
                base.wrapping_add(lane16_sum(s, 63))
            },
        ) by {
            let j = k % 64;
            assert(arr@[j] == a2[j].wrapping_add(l0));
            assert(a2[k] == lane16_sum(s, k));
        }
    }
}

/// Sum of the first `i + 1` values.
pub open spec fn sum_upto(s: Seq<u32>, i: int) -> int
    decreases i + 1,
{
    if i < 0 {
        0
    } else {
        sum_upto(s, i - 1) + s[i]
    }
}

/// Sums of `u32` values only grow.
proof fn lemma_sum_upto_mono(s: Seq<u32>, i: int, j: int)
    requires
        i <= j,
    ensures
        sum_upto(s, i) <= sum_upto(s, j),
    decreases j - i,
{
    if i < j {
        lemma_sum_upto_mono(s, i, j - 1);
    }
}

/// A running sum whose plain sum stays within `u32` is `base` plus that sum
/// (wrapping once at most).
proof fn lemma_running_sum_plain(s: Seq<u32>, base: u32, i: int)
    requires
        i >= -1,
        sum_upto(s, i) <= u32::MAX,
    ensures
        running_sum(s, base, i) == base.wrapping_add(sum_upto(s, i) as u32),
    decreases i + 1,
{
    if i >= 0 {
        lemma_sum_upto_mono(s, i - 1, i);
        lemma_sum_upto_mono(s, -1, i - 1);
        lemma_running_sum_plain(s, base, i - 1);
        let p = sum_upto(s, i - 1);
        assert(sum_upto(s, i) == p + s[i]);
        assert(running_sum(s, base, i) == running_sum(s, base, i - 1).wrapping_add(s[i]));
    } else {
        assert(sum_upto(s, i) == 0);
    }
}

/// Two 16-bit values in one word: the word is their weighted sum, and each
/// comes back out of its half.
proof fn lemma_pack16(hi: u32, lo: u32)
    by (bit_vector)
    requires
        hi < 0x10000,
        lo < 0x10000,
    ensures
        (hi << 16u32) | lo == hi * 0x10000 + lo,
        ((hi * 0x10000 + lo) as u32 >> 16u32) & 0xffff == hi,
        (hi * 0x10000 + lo) as u32 & 0xffff == lo,
{
}

/// Summing packed words sums both halves.
proof fn lemma_sum_packed(d: Seq<u32>, s: Seq<u32>, i: int)
    requires
        d.len() == BLOCK_SIZE,
        i < 64,
        forall|j: int| 0 <= j < 64 ==> #[trigger] s[j] == d[j] * 0x10000 + d[64 + j],
    ensures
        sum_upto(s, i) == sum_upto(d, i) * 0x10000 + sum_upto(d.subrange(64, 128), i),
    decreases i + 1,
{
    if i >= 0 {
        lemma_sum_packed(d, s, i - 1);
        assert(d.subrange(64, 128)[i] == d[64 + i]);
    }
}

/// The running sum past the first half adds the second half's sums.
proof fn lemma_sum_halves(d: Seq<u32>, j: int)
    requires
        d.len() == BLOCK_SIZE,
        -1 <= j < 64,
    ensures
        sum_upto(d, 64 + j) == sum_upto(d, 63) + sum_upto(d.subrange(64, 128), j),
    decreases j + 1,
{
    if j >= 0 {
        lemma_sum_halves(d, j - 1);
        assert(d.subrange(64, 128)[j] == d[64 + j]);
    }
}

/// Collapsing 128 deltas into 16-bit lanes and taking the lane prefix sum
/// gives the plain running sums of the deltas from `base`, as long as
/// neither half of the block sums past 16 bits.
pub proof fn lemma_lane16_prefix_sum(d: Seq<u32>, s: Seq<u32>, base: u32)
    requires
        d.len() == BLOCK_SIZE,
        sum_upto(d, 63) < 0x10000,
        sum_upto(d.subrange(64, 128), 63) < 0x10000,
        forall|i: int| 0 <= i < 64 ==> #[trigger] s[i] == (d[i] << 16u32) | d[64 + i],
    ensures
        forall|k: int|
            0 <= k < BLOCK_SIZE ==> lane16_sum(s, k).wrapping_add(
                if k < 64 {
                    base
                } else {
                    base.wrapping_add(lane16_sum(s, 63))
                },
            ) == #[trigger] running_sum(d, base, k),
{
    let d2 = d.subrange(64, 128);
    assert forall|j: int| 0 <= j < 64 implies #[trigger] s[j] == d[j] * 0x10000 + d[64 + j] by {
        assert(d2[j] == d[64 + j]);
        lemma_sum_upto_mono(d, -1, j - 1);
        lemma_sum_upto_mono(d2, -1, j - 1);
        lemma_sum_upto_mono(d, j, 63);
        lemma_sum_upto_mono(d2, j, 63);
        lemma_pack16(d[j], d[64 + j]);
    }
    assert forall|k: int| 0 <= k < BLOCK_SIZE implies lane16_sum(s, k).wrapping_add(
        if k < 64 {
            base
        } else {
            base.wrapping_add(lane16_sum(s, 63))
        },
    ) == #[trigger] running_sum(d, base, k) by {
        let i = k % 64;
        lemma_packed_prefix(d, s, i);
        lemma_packed_prefix(d, s, 63);
        lemma_pack16(sum_upto(d, i) as u32, sum_upto(d2, i) as u32);
        lemma_pack16(sum_upto(d, 63) as u32, sum_upto(d2, 63) as u32);
        if k < 64 {
            lemma_running_sum_plain(d, base, k);
        } else {
            lemma_sum_halves(d, k - 64);
            lemma_running_sum_plain(d, base, k);
        }
    }
}

/// The lane running sum of packed words: both halves' sums, each within
/// 16 bits.
proof fn lemma_packed_prefix(d: Seq<u32>, s: Seq<u32>, i: int)
    requires
        d.len() == BLOCK_SIZE,
        0 <= i < 64,
        sum_upto(d, 63) < 0x10000,
        sum_upto(d.subrange(64, 128), 63) < 0x10000,
        forall|j: int| 0 <= j < 64 ==> #[trigger] s[j] == d[j] * 0x10000 + d[64 + j],
    ensures
        0 <= sum_upto(d, i) < 0x10000,
        0 <= sum_upto(d.subrange(64, 128), i) < 0x10000,
        running_sum(s, 0, i) == (sum_upto(d, i) * 0x10000 + sum_upto(d.subrange(64, 128), i)) as u32,
{
    let d2 = d.subrange(64, 128);
    lemma_sum_packed(d, s, i);
    lemma_sum_upto_mono(d, -1, i);
    lemma_sum_upto_mono(d2, -1, i);
    lemma_sum_upto_mono(d, i, 63);
    lemma_sum_upto_mono(d2, i, 63);
    lemma_running_sum_plain(s, 0, i);
}

/// Four 8-bit values in one word: the word is their weighted sum, and each
/// comes back out of its byte.
proof fn lemma_pack8(a: u32, b: u32, c: u32, e: u32)
    by (bit_vector)
    requires
        a < 0x100,
        b < 0x100,
        c < 0x100,
        e < 0x100,
    ensures
        (a << 24u32) | (b << 16u32) | (c << 8u32) | e == a * 0x1000000 + b * 0x10000 + c * 0x100 + e,
        ((a * 0x1000000 + b * 0x10000 + c * 0x100 + e) as u32 >> 24u32) & 0xff == a,
        ((a * 0x1000000 + b * 0x10000 + c * 0x100 + e) as u32 >> 16u32) & 0xff == b,
        ((a * 0x1000000 + b * 0x10000 + c * 0x100 + e) as u32 >> 8u32) & 0xff == c,
        (a * 0x1000000 + b * 0x10000 + c * 0x100 + e) as u32 & 0xff == e,
{
}

/// Quarter `q` of a block of 128.
pub open spec fn quarter(d: Seq<u32>, q: int) -> Seq<u32> {
    d.subrange(32 * q, 32 * q + 32)
}

/// Summing byte-packed words sums all four quarters.
proof fn lemma_sum_packed8(d: Seq<u32>, s: Seq<u32>, i: int)
    requires
        d.len() == BLOCK_SIZE,
        i < 32,
        forall|j: int|
            0 <= j < 32 ==> #[trigger] s[j] == d[j] * 0x1000000 + d[32 + j] * 0x10000 + d[64 + j]
                * 0x100 + d[96 + j],
    ensures
        sum_upto(s, i) == sum_upto(quarter(d, 0), i) * 0x1000000 + sum_upto(quarter(d, 1), i)
            * 0x10000 + sum_upto(quarter(d, 2), i) * 0x100 + sum_upto(quarter(d, 3), i),
    decreases i + 1,
{
    if i >= 0 {
        lemma_sum_packed8(d, s, i - 1);
        assert(quarter(d, 0)[i] == d[i]);
        assert(quarter(d, 1)[i] == d[32 + i]);
        assert(quarter(d, 2)[i] == d[64 + i]);
        assert(quarter(d, 3)[i] == d[96 + i]);
    }
}

/// The sum into quarter `q` is the sum before it plus the quarter's own.
proof fn lemma_sum_quarter(d: Seq<u32>, q: int, j: int)
    requires
        d.len() == BLOCK_SIZE,
        0 <= q < 4,
        -1 <= j < 32,
    ensures
        sum_upto(d, 32 * q + j) == sum_upto(d, 32 * q - 1) + sum_upto(quarter(d, q), j),
    decreases j + 1,
{
    if j >= 0 {
        lemma_sum_quarter(d, q, j - 1);
        assert(quarter(d, q)[j] == d[32 * q + j]);
    }
}

/// Adding in two steps that do not pass `u32::MAX` together wraps as one.
proof fn lemma_wrap_twice(x: u32, a: int, b: int)
    requires
        0 <= a,
        0 <= b,
        a + b <= u32::MAX,
    ensures
        x.wrapping_add(a as u32).wrapping_add(b as u32) == x.wrapping_add((a + b) as u32),
{
}

/// The byte-lane running sum of packed words: each quarter's sums, each
/// within 8 bits.
proof fn lemma_packed8_prefix(d: Seq<u32>, s: Seq<u32>, i: int)
    requires
        d.len() == BLOCK_SIZE,
        0 <= i < 32,
        forall|q: int| 0 <= q < 4 ==> #[trigger] sum_upto(quarter(d, q), 31) < 0x100,
        forall|j: int|
            0 <= j < 32 ==> #[trigger] s[j] == d[j] * 0x1000000 + d[32 + j] * 0x10000 + d[64 + j]
                * 0x100 + d[96 + j],
    ensures
        forall|q: int| 0 <= q < 4 ==> 0 <= #[trigger] sum_upto(quarter(d, q), i) < 0x100,
        running_sum(s, 0, i) == (sum_upto(quarter(d, 0), i) * 0x1000000 + sum_upto(quarter(d, 1), i)
            * 0x10000 + sum_upto(quarter(d, 2), i) * 0x100 + sum_upto(quarter(d, 3), i)) as u32,
{
    lemma_sum_packed8(d, s, i);
    assert forall|q: int| 0 <= q < 4 implies 0 <= #[trigger] sum_upto(quarter(d, q), i) < 0x100 by {
        assert(sum_upto(quarter(d, q), 31) < 0x100);
        lemma_sum_upto_mono(quarter(d, q), -1, i);
        lemma_sum_upto_mono(quarter(d, q), i, 31);
    }
    assert(sum_upto(quarter(d, 0), i) < 0x100);
    assert(sum_upto(quarter(d, 1), i) < 0x100);
    assert(sum_upto(quarter(d, 2), i) < 0x100);
    assert(sum_upto(quarter(d, 3), i) < 0x100);
    lemma_running_sum_plain(s, 0, i);
}

/// Collapsing 128 deltas into byte lanes and taking the lane prefix sum
/// gives the plain running sums of the deltas from `base`, as long as no
/// quarter of the block sums past 8 bits.
pub proof fn lemma_lane8_prefix_sum(d: Seq<u32>, s: Seq<u32>, base: u32)
    requires
        d.len() == BLOCK_SIZE,
        forall|q: int| 0 <= q < 4 ==> #[trigger] sum_upto(quarter(d, q), 31) < 0x100,
        forall|i: int|
            0 <= i < 32 ==> #[trigger] s[i] == (d[i] << 24u32) | (d[32 + i] << 16u32) | (d[64 + i]
                << 8u32) | d[96 + i],
    ensures
        forall|k: int|
            0 <= k < BLOCK_SIZE ==> lane8_sum(s, k).wrapping_add(quarter_offset8(s, base, k / 32))
                == #[trigger] running_sum(d, base, k),
{
    assert forall|j: int|
        0 <= j < 32 implies #[trigger] s[j] == d[j] * 0x1000000 + d[32 + j] * 0x10000 + d[64 + j]
        * 0x100 + d[96 + j] by {
        assert forall|q: int| 0 <= q < 4 implies #[trigger] quarter(d, q)[j] < 0x100 by {
            assert(sum_upto(quarter(d, q), 31) < 0x100);
            lemma_sum_upto_mono(quarter(d, q), -1, j - 1);
            lemma_sum_upto_mono(quarter(d, q), j, 31);
        }
        assert(quarter(d, 0)[j] == d[j]);
        assert(quarter(d, 1)[j] == d[32 + j]);
        assert(quarter(d, 2)[j] == d[64 + j]);
        assert(quarter(d, 3)[j] == d[96 + j]);
        lemma_pack8(d[j], d[32 + j], d[64 + j], d[96 + j]);
    }
    lemma_packed8_prefix(d, s, 31);
    let t0 = sum_upto(quarter(d, 0), 31);
    let t1 = sum_upto(quarter(d, 1), 31);
    let t2 = sum_upto(quarter(d, 2), 31);
    let t3 = sum_upto(quarter(d, 3), 31);
    lemma_pack8(t0 as u32, t1 as u32, t2 as u32, t3 as u32);
    assert(lane8_sum(s, 31) == t0);
    assert(lane8_sum(s, 63) == t1);
    assert(lane8_sum(s, 95) == t2);
    lemma_sum_quarter(d, 0, 31);
    lemma_sum_quarter(d, 1, 31);
    lemma_sum_quarter(d, 2, 31);
    assert(sum_upto(d, -1) == 0);
    assert(quarter_offset8(s, base, 0) == base);
    assert(quarter_offset8(s, base, 1) == base.wrapping_add(t0 as u32));
    lemma_wrap_twice(base, t0, t1);
    assert(quarter_offset8(s, base, 2) == base.wrapping_add((t0 + t1) as u32));
    lemma_wrap_twice(base, t0 + t1, t2);
    assert(quarter_offset8(s, base, 3) == base.wrapping_add((t0 + t1 + t2) as u32));
    assert forall|k: int| 0 <= k < BLOCK_SIZE implies lane8_sum(s, k).wrapping_add(
        quarter_offset8(s, base, k / 32),
    ) == #[trigger] running_sum(d, base, k) by {
        let q = k / 32;
        let i = k % 32;
        assert(k == 32 * q + i);
        lemma_packed8_prefix(d, s, i);
        let a = sum_upto(quarter(d, 0), i);
        let b = sum_upto(quarter(d, 1), i);
        let c = sum_upto(quarter(d, 2), i);
        let e = sum_upto(quarter(d, 3), i);
        lemma_pack8(a as u32, b as u32, c as u32, e as u32);
        lemma_sum_quarter(d, q, i);
        let before = sum_upto(d, 32 * q - 1);
        let own = sum_upto(quarter(d, q), i);
        assert(lane8_sum(s, k) == own);
        assert(quarter_offset8(s, base, q) == base.wrapping_add(before as u32));
        lemma_sum_upto_mono(d, -1, 32 * q - 1);
        lemma_wrap_twice(base, before, own);
        lemma_running_sum_plain(d, base, k);
    }
}

/// Bit facts the block formats need: a word is the weighted sum of its four
/// bytes, and of its two half-words, and it is its own full-width band; a
/// byte or'd into zero is the byte.
pub(crate) proof fn lemma_bit_facts(w: u32, b: u8)
    by (bit_vector)
    ensures
        w == ((w >> 24u32) & 0xff) * 0x1000000 + ((w >> 16u32) & 0xff) * 0x10000 + ((w >> 8u32)
            & 0xff) * 0x100 + (w & 0xff),
        w == ((w >> 16u32) & 0xffff) * 0x10000 + (w & 0xffff),
        (w >> 24u32) & 0xff < 0x100,
        (w >> 16u32) & 0xff < 0x100,
        (w >> 8u32) & 0xff < 0x100,
        w & 0xff < 0x100,
        (w >> 16u32) & 0xffff < 0x10000,
        w & 0xffff < 0x10000,
        (w >> 0u32) & 0xffff_ffff == w,
        w & 0xffff_ffff == w,
        0u8 | b == b,
{
}

/// The 128 values of packed words spread over byte lanes: value `k` is
/// byte `k / 32` (most significant first) of word `k % 32`.
pub open spec fn spread8(s: Seq<u32>) -> Seq<u32> {
    Seq::new(
        BLOCK_SIZE as nat,
        |k: int|
            {
                let w = s[k % 32];
                if k < 32 {
                    (w >> 24u32) & 0xff
                } else if k < 64 {
                    (w >> 16u32) & 0xff
                } else if k < 96 {
                    (w >> 8u32) & 0xff
                } else {
                    w & 0xff
                }
            },
    )
}

/// The 128 values of packed words spread over half-word lanes: value `k`
/// is half `k / 64` (upper first) of word `k % 64`.
pub open spec fn spread16(s: Seq<u32>) -> Seq<u32> {
    Seq::new(
        BLOCK_SIZE as nat,
        |k: int|
            {
                let w = s[k % 64];
                if k < 64 {
                    (w >> 16u32) & 0xffff
                } else {
                    w & 0xffff
                }
            },
    )
}

/// At widths up to 3, `decode_and_prefix_sum` gives the plain running sums
/// from `base` of the deltas that `for_util::decode` reads from the same
/// bytes, as long as no quarter of them sums past 8 bits.
#[verifier::spinoff_prover]
#[verifier::rlimit(100)]
pub proof fn lemma_byte_width_prefix_sum(bpv: u32, buf: Seq<u8>, base: u32)
    requires
        1 <= bpv <= 3,
        forall|q: int|
            0 <= q < 4 ==> #[trigger] sum_upto(quarter(spread8(delta_block(bpv, buf)), q), 31) < 0x100,
    ensures
        forall|k: int|
            0 <= k < BLOCK_SIZE ==> #[trigger] spread8(delta_block(bpv, buf))[k] == unpacked_value(
                bpv,
                buf,
                k,
            ),
        forall|k: int|
            0 <= k < BLOCK_SIZE ==> #[trigger] prefix_value(bpv, buf, base, k) == running_sum(
                spread8(delta_block(bpv, buf)),
                base,
                k,
            ),
{
    let s = delta_block(bpv, buf);
    let d = spread8(s);
    lemma_spread8_prefix(s, base);
    assert forall|k: int| 0 <= k < BLOCK_SIZE implies #[trigger] d[k] == unpacked_value(bpv, buf, k) by {
        lemma_same_byte_decoders(bpv, buf, k % 32);
    }
}

/// At widths up to 3 both decoders read the same packed words.
#[verifier::spinoff_prover]
proof fn lemma_same_byte_decoders(bpv: u32, buf: Seq<u8>, i: int)
    requires
        1 <= bpv <= 3,
        0 <= i < 32,
    ensures
        delta_block(bpv, buf)[i] == packed_word(bpv, buf, i),
{
    if bpv == 1 {
        assert(delta_packed_word(1, buf, i) == packed_word(1, buf, i));
    } else if bpv == 2 {
        assert(delta_packed_word(2, buf, i) == packed_word(2, buf, i));
    } else {
        assert(delta_packed_word(3, buf, i) == packed_word(3, buf, i));
    }
}

/// At widths 4 to 10, `decode_and_prefix_sum` gives the plain running sums
/// from `base` of its deltas spread over half-word lanes, as long as
/// neither half of them sums past 16 bits.
#[verifier::spinoff_prover]
#[verifier::rlimit(100)]
pub proof fn lemma_half_word_width_prefix_sum(bpv: u32, buf: Seq<u8>, base: u32)
    requires
        4 <= bpv <= 10,
        sum_upto(spread16(delta_block(bpv, buf)), 63) < 0x10000,
        sum_upto(spread16(delta_block(bpv, buf)).subrange(64, 128), 63) < 0x10000,
    ensures
        forall|k: int|
            0 <= k < BLOCK_SIZE ==> #[trigger] prefix_value(bpv, buf, base, k) == running_sum(
                spread16(delta_block(bpv, buf)),
                base,
                k,
            ),
{
    let s = delta_block(bpv, buf);
    lemma_spread16_prefix(s, base);
}

/// The byte-lane prefix sum of packed words is the plain running sum of
/// their spread bytes, as long as no quarter sums past 8 bits.
#[verifier::spinoff_prover]
#[verifier::rlimit(100)]
proof fn lemma_spread8_prefix(s: Seq<u32>, base: u32)
    requires
        forall|q: int| 0 <= q < 4 ==> #[trigger] sum_upto(quarter(spread8(s), q), 31) < 0x100,
    ensures
        forall|k: int|
            0 <= k < BLOCK_SIZE ==> lane8_sum(s, k).wrapping_add(quarter_offset8(s, base, k / 32))
                == #[trigger] running_sum(spread8(s), base, k),
{
    let d = spread8(s);
    assert forall|i: int| 0 <= i < 32 implies #[trigger] s[i] == (d[i] << 24u32) | (d[32 + i]
        << 16u32) | (d[64 + i] << 8u32) | d[96 + i] by {
        lemma_spread8_word(s, i);
    }
    lemma_lane8_prefix_sum(d, s, base);
}

/// Word `i` of packed words is its four spread bytes put back together.
proof fn lemma_spread8_word(s: Seq<u32>, i: int)
    requires
        0 <= i < 32,
    ensures
        s[i] == (spread8(s)[i] << 24u32) | (spread8(s)[32 + i] << 16u32) | (spread8(s)[64 + i] << 8u32)
            | spread8(s)[96 + i],
{
    let d = spread8(s);
    let w = s[i];
    assert(i % 32 == i);
    assert((32 + i) % 32 == i);
    assert((64 + i) % 32 == i);
    assert((96 + i) % 32 == i);
    lemma_bit_facts(w, 0);
    assert(d[i] == (w >> 24u32) & 0xff);
    assert(d[32 + i] == (w >> 16u32) & 0xff);
    assert(d[64 + i] == (w >> 8u32) & 0xff);
    assert(d[96 + i] == w & 0xff);
    lemma_pack8(d[i], d[32 + i], d[64 + i], d[96 + i]);
}

/// The half-word-lane prefix sum of packed words is the plain running sum
/// of their spread halves, as long as neither half sums past 16 bits.
#[verifier::spinoff_prover]
#[verifier::rlimit(100)]
proof fn lemma_spread16_prefix(s: Seq<u32>, base: u32)
    requires
        sum_upto(spread16(s), 63) < 0x10000,
        sum_upto(spread16(s).subrange(64, 128), 63) < 0x10000,
    ensures
        forall|k: int|
            0 <= k < BLOCK_SIZE ==> lane16_sum(s, k).wrapping_add(
                if k < 64 {
                    base
                } else {
                    base.wrapping_add(lane16_sum(s, 63))
                },
            ) == #[trigger] running_sum(spread16(s), base, k),
{
    let d = spread16(s);
    assert forall|i: int| 0 <= i < 64 implies #[trigger] s[i] == (d[i] << 16u32) | d[64 + i] by {
        lemma_spread16_word(s, i);
    }
    lemma_lane16_prefix_sum(d, s, base);
}

/// Word `i` of packed words is its two spread halves put back together.
proof fn lemma_spread16_word(s: Seq<u32>, i: int)
    requires
        0 <= i < 64,
    ensures
        s[i] == (spread16(s)[i] << 16u32) | spread16(s)[64 + i],
{
    let d = spread16(s);
    let w = s[i];
    assert(i % 64 == i);
    assert((64 + i) % 64 == i);
    lemma_bit_facts(w, 0);
    assert(d[i] == (w >> 16u32) & 0xffff);
    assert(d[64 + i] == w & 0xffff);
    lemma_pack16(d[i], d[64 + i]);
}

/// Plain running sums over all 128 values.
fn prefix_sum32(arr: &mut [u32; BLOCK_SIZE], base: u32)
    ensures
        forall|i: int|
            0 <= i < BLOCK_SIZE ==> #[trigger] final(arr)@[i] == running_sum(old(arr)@, base, i),
{
    prefix_sum(arr, BLOCK_SIZE, base);
}

/// Word `k` of the block `decode_and_prefix_sum` decodes at width `bpv`
/// before the prefix sum (above 16 bits: the banded words at the front).
pub open spec fn delta_packed_word(bpv: u32, buf: Seq<u8>, k: int) -> u32 {
    if bpv == 1 {
        split_word(raw_words(buf, 0, 4), 4, 7, 1, MASK8_1, 28, MASK8_1, k)
    } else if bpv == 2 {
        split_word(raw_words(buf, 0, 8), 8, 6, 2, MASK8_2, 24, MASK8_2, k)
    } else if bpv == 3 {
        if k < 24 {
            band(raw_words(buf, 0, 12), 12, 5, 3, MASK8_3, k)
        } else {
            decode3_tail(raw_words(buf, 0, 12), (k - 24) / 2, (k - 24) % 2)
        }
    } else if bpv == 4 {
        split_word(raw_words(buf, 0, 16), 16, 12, 4, MASK16_4, 48, MASK16_4, k)
    } else if bpv == 5 {
        if k < 60 {
            band(raw_words(buf, 0, 20), 20, 11, 5, MASK16_5, k)
        } else {
            decode5_to16_tail(raw_words(buf, 0, 20), k - 60, 0)
        }
    } else if bpv == 6 {
        if k < 48 {
            band(raw_words(buf, 0, 24), 24, 10, 6, MASK16_6, k)
        } else {
            decode6_to16_tail(raw_words(buf, 0, 24), (k - 48) / 2, (k - 48) % 2)
        }
    } else if bpv == 7 {
        if k < 56 {
            band(raw_words(buf, 0, 28), 28, 9, 7, MASK16_7, k)
        } else {
            decode7_to16_tail(raw_words(buf, 0, 28), (k - 56) / 2, (k - 56) % 2)
        }
    } else if bpv == 8 {
        split_word(raw_words(buf, 0, 32), 32, 8, 8, MASK16_8, 32, MASK16_8, k)
    } else if bpv == 9 {
        if k < 36 {
            band(raw_words(buf, 0, 36), 36, 7, 9, MASK16_9, k)
        } else {
            decode9_tail(raw_words(buf, 0, 36), (k - 36) / 7, (k - 36) % 7)
        }
    } else if bpv == 10 {
        if k < 40 {
            band(raw_words(buf, 0, 40), 40, 6, 10, MASK16_10, k)
        } else {
            decode10_tail(raw_words(buf, 0, 40), (k - 40) / 3, (k - 40) % 3)
        }
    } else if bpv == 11 {
        if k < 88 {
            band(raw_words(buf, 0, 44), 44, 21, 11, MASK32_11, k)
        } else {
            decode11_to32_tail(raw_words(buf, 0, 44), (k - 88) / 10, (k - 88) % 10)
        }
    } else if bpv == 12 {
        if k < 96 {
            band(raw_words(buf, 0, 48), 48, 20, 12, MASK32_12, k)
        } else {
            decode12_to32_tail(raw_words(buf, 0, 48), (k - 96) / 2, (k - 96) % 2)
        }
    } else if bpv == 13 {
        if k < 104 {
            band(raw_words(buf, 0, 52), 52, 19, 13, MASK32_13, k)
        } else {
            decode13_to32_tail(raw_words(buf, 0, 52), (k - 104) / 6, (k - 104) % 6)
        }
    } else if bpv == 14 {
        if k < 112 {
            band(raw_words(buf, 0, 56), 56, 18, 14, MASK32_14, k)
        } else {
            decode14_to32_tail(raw_words(buf, 0, 56), (k - 112) / 2, (k - 112) % 2)
        }
    } else if bpv == 15 {
        if k < 120 {
            band(raw_words(buf, 0, 60), 60, 17, 15, MASK32_15, k)
        } else {
            decode15_to32_tail(raw_words(buf, 0, 60), (k - 120) / 2, (k - 120) % 2)
        }
    } else if bpv == 16 {
        split_word(raw_words(buf, 0, 64), 64, 16, 16, MASK32_16, 64, MASK32_16, k)
    } else if k < 4 * bpv {
        band(raw_words(buf, 0, 4 * bpv), 4 * bpv, (32 - bpv) as u32, 32, low_mask(bpv), k)
    } else {
        stitched(raw_words(buf, 0, 4 * bpv), bpv, k - 4 * bpv)
    }
}

/// The decoded block of [`delta_packed_word`].
pub open spec fn delta_block(bpv: u32, buf: Seq<u8>) -> Seq<u32> {
    Seq::new(BLOCK_SIZE as nat, |k: int| delta_packed_word(bpv, buf, k))
}

/// Value `k` that `decode_and_prefix_sum` gives: the lane-wise prefix sum of
/// the decoded block for widths up to 10, the plain running sum above.
pub open spec fn prefix_value(bpv: u32, buf: Seq<u8>, base: u32, k: int) -> u32 {
    let s = delta_block(bpv, buf);
    if bpv <= 3 {
        lane8_sum(s, k).wrapping_add(quarter_offset8(s, base, k / 32))
    } else if bpv <= 10 {
        lane16_sum(s, k).wrapping_add(
            if k < 64 {
                base
            } else {
                base.wrapping_add(lane16_sum(s, 63))
            },
        )
    } else {
        running_sum(s, base, k)
    }
}

/// Running sums only read the values up to their index.
proof fn lemma_running_sum_agree(s: Seq<u32>, t: Seq<u32>, b: u32, i: int)
    requires
        forall|j: int| 0 <= j <= i ==> #[trigger] s[j] == t[j],
    ensures
        running_sum(s, b, i) == running_sum(t, b, i),
    decreases i + 1,
{
    if i >= 0 {
        lemma_running_sum_agree(s, t, b, i - 1);
    }
}

/// At 32 bits, what `encode_deltas` writes `decode_and_prefix_sum` reads
/// back as the running sums of the deltas from `base`, whatever follows.
pub proof fn lemma_raw_deltas_round_trip(deltas: Seq<u32>, post: Seq<u8>, base: u32, k: int)
    requires
        deltas.len() == BLOCK_SIZE,
        0 <= k < BLOCK_SIZE,
    ensures
        prefix_value(32, words_le(deltas) + post, base, k) == running_sum(deltas, base, k),
{
    let buf = words_le(deltas) + post;
    let block = delta_block(32, buf);
    assert forall|j: int| 0 <= j <= k implies #[trigger] block[j] == deltas[j] by {
        for_util::lemma_raw_round_trip(deltas, post, j);
        assert(unpacked_value(32, buf, j) == packed_word(32, buf, j));
    }
    lemma_running_sum_agree(block, deltas, base, k);
}

/// Sums of values below 8 stay below 8 for each one summed.
proof fn lemma_sum_upto_small(s: Seq<u32>, i: int)
    requires
        -1 <= i < s.len(),
        forall|j: int| 0 <= j <= i ==> #[trigger] s[j] < 8,
    ensures
        sum_upto(s, i) <= 7 * (i + 1),
    decreases i + 1,
{
    if i >= 0 {
        lemma_sum_upto_small(s, i - 1);
        assert(s[i] < 8);
        assert(sum_upto(s, i) == sum_upto(s, i - 1) + s[i]);
    }
}

/// At 1 to 3 bits, what `encode_deltas` writes `decode_and_prefix_sum`
/// reads back as the running sums of the deltas from `base`, whatever
/// bytes follow, when every delta fits (at 32 bits see
/// [`lemma_raw_deltas_round_trip`]).
pub proof fn lemma_deltas_round_trip(bpv: u32, deltas: Seq<u32>, post: Seq<u8>, base: u32, k: int)
    requires
        1 <= bpv <= 3,
        deltas.len() == BLOCK_SIZE,
        forall|i: int|
            0 <= i < BLOCK_SIZE ==> (#[trigger] deltas[i] as nat) < vstd::arithmetic::power2::pow2(
                bpv as nat,
            ),
        0 <= k < BLOCK_SIZE,
    ensures
        prefix_value(bpv, delta_bytes(deltas, bpv) + post, base, k) == running_sum(deltas, base, k),
{
    vstd::arithmetic::power2::lemma2_to64();
    lemma_delta_bytes_match_for_util(deltas, bpv);
    let buf = delta_bytes(deltas, bpv) + post;
    let s = delta_block(bpv, buf);
    assert forall|i: int| 0 <= i < 32 implies #[trigger] s[i] == (deltas[i] << 24u32) | (deltas[32 + i]
        << 16u32) | (deltas[64 + i] << 8u32) | deltas[96 + i] by {
        for_util::lemma_packed_lanes(bpv, deltas, post, i);
        assert(s[i] == packed_word(bpv, buf, i));
    }
    assert forall|q: int| 0 <= q < 4 implies #[trigger] sum_upto(quarter(deltas, q), 31) < 0x100 by {
        assert forall|j: int| 0 <= j <= 31 implies #[trigger] quarter(deltas, q)[j] < 8 by {
            assert(quarter(deltas, q)[j] == deltas[32 * q + j]);
            assert((deltas[32 * q + j] as nat) < vstd::arithmetic::power2::pow2(bpv as nat));
        }
        lemma_sum_upto_small(quarter(deltas, q), 31);
    }
    lemma_lane8_prefix_sum(deltas, s, base);
    assert(lane8_sum(s, k).wrapping_add(quarter_offset8(s, base, k / 32)) == running_sum(deltas, base, k));
}

/// The 8-bit lane prefix sum reads only the first 32 words.
proof fn lemma_prefix8_agree(s: Seq<u32>, t: Seq<u32>, base: u32)
    requires
        forall|j: int| 0 <= j < 32 ==> #[trigger] s[j] == t[j],
    ensures
        forall|k: int|
            0 <= k < 128 ==> #[trigger] lane8_sum(s, k).wrapping_add(quarter_offset8(s, base, k / 32))
                == lane8_sum(t, k).wrapping_add(quarter_offset8(t, base, k / 32)),
{
    assert forall|i: int| 0 <= i < 32 implies #[trigger] running_sum(s, 0, i) == running_sum(t, 0, i) by {
        lemma_running_sum_agree(s, t, 0, i);
    }
    assert(running_sum(s, 0, 31) == running_sum(t, 0, 31));
    assert(lane8_sum(s, 31) == lane8_sum(t, 31));
    assert(lane8_sum(s, 63) == lane8_sum(t, 63));
    assert(lane8_sum(s, 95) == lane8_sum(t, 95));
    assert(quarter_offset8(s, base, 0) == quarter_offset8(t, base, 0));
    assert(quarter_offset8(s, base, 1) == quarter_offset8(t, base, 1));
    assert(quarter_offset8(s, base, 2) == quarter_offset8(t, base, 2));
    assert(quarter_offset8(s, base, 3) == quarter_offset8(t, base, 3));
    assert forall|k: int| 0 <= k < 128 implies #[trigger] lane8_sum(s, k).wrapping_add(
        quarter_offset8(s, base, k / 32),
    ) == lane8_sum(t, k).wrapping_add(quarter_offset8(t, base, k / 32)) by {
        assert(running_sum(s, 0, k % 32) == running_sum(t, 0, k % 32));
    }
}

/// The 16-bit lane prefix sum reads only the first 64 words.
proof fn lemma_prefix16_agree(s: Seq<u32>, t: Seq<u32>)
    requires
        forall|j: int| 0 <= j < 64 ==> #[trigger] s[j] == t[j],
    ensures
        forall|k: int| 0 <= k < 128 ==> #[trigger] lane16_sum(s, k) == lane16_sum(t, k),
{
    assert forall|k: int| 0 <= k < 128 implies #[trigger] lane16_sum(s, k) == lane16_sum(t, k) by {
        lemma_running_sum_agree(s, t, 0, k % 64);
    }
}


fn decode4_to16(input: &mut Reader<'_>, ints: &mut [u32; BLOCK_SIZE])
    ensures
        final(input).buf@ == old(input).buf@,
        final(input).pos == words_pos(old(input).buf@.len() as int, old(input).pos as int, 16),
        forall|k: int|
            0 <= k < BLOCK_SIZE ==> #[trigger] final(ints)@[k] == split_at(
                old(ints)@,
                raw_words(old(input).buf@, old(input).pos as int, 16),
                16,
                12,
                4,
                MASK16_4,
                48,
                MASK16_4,
                k,
            ),
{
    split_ints(input, 16, ints, 12, 4, MASK16_4, 48, MASK16_4);
}

/// Value `j` of group `kk` that `decode5_to16` stitches together from the
/// masked remainders of the raw words.
pub open spec fn decode5_to16_tail(raw: Seq<u32>, kk: int, j: int) -> u32 {
    (((((raw[5 * kk + 0] & MASK16_1) << 4) | ((raw[5 * kk + 1] & MASK16_1) << 3)) | ((raw[5 * kk + 2] & MASK16_1) << 2)) | ((raw[5 * kk + 3] & MASK16_1) << 1)) | (raw[5 * kk + 4] & MASK16_1)
}

fn decode5_to16(input: &mut Reader<'_>, tmp: &mut [u32; BLOCK_SIZE], ints: &mut [u32; BLOCK_SIZE])
    ensures
        final(input).buf@ == old(input).buf@,
        final(input).pos == words_pos(old(input).buf@.len() as int, old(input).pos as int, 20),
        forall|m: int|
            0 <= m < BLOCK_SIZE && !(60 <= m < 64) ==> #[trigger] final(ints)@[m] == (if m < bands_len(
                20,
                11,
                5,
            ) {
                band(raw_words(old(input).buf@, old(input).pos as int, 20), 20, 11, 5, MASK16_5, m)
            } else {
                old(ints)@[m]
            }),
        forall|kk: int, j: int|
            0 <= kk < 4 && 0 <= j < 1 ==> final(ints)@[60 + 1 * kk + j] == #[trigger] decode5_to16_tail(
                raw_words(old(input).buf@, old(input).pos as int, 20),
                kk,
                j,
            ),
{
    let ghost raw = raw_words(input.buf@, input.pos as int, 20);
    split_ints_tmp(input, 20, ints, 11, 5, MASK16_5, tmp, MASK16_1);
    let ghost t0 = tmp@;
    let ghost mid = ints@;
    let mut tmp_idx: usize = 0;
    let mut ints_idx: usize = 60;
    let mut k: usize = 0;
    while k < 4
        invariant
            k <= 4,
            tmp_idx == 5 * k,
            ints_idx == 60 + 1 * k,
            tmp@ == t0,
            forall|x: int| 0 <= x < 20 ==> #[trigger] t0[x] == raw[x] & MASK16_1,
            forall|m: int|
                0 <= m < BLOCK_SIZE && !(60 <= m < 60 + 1 * k) ==> #[trigger] ints@[m] == mid[m],
            forall|kk: int, j: int|
                0 <= kk < k && 0 <= j < 1 ==> ints@[60 + 1 * kk + j] == #[trigger] decode5_to16_tail(raw, kk, j),
        decreases 4 - k,
    {
        let ghost prev = ints@;
        let mut l0: u32 = tmp[tmp_idx] << 4;
        l0 |= tmp[tmp_idx + 1] << 3;
        l0 |= tmp[tmp_idx + 2] << 2;
        l0 |= tmp[tmp_idx + 3] << 1;
        l0 |= tmp[tmp_idx + 4];
        ints[ints_idx] = l0;
        proof {
            assert(ints@[60 + 1 * k + 0] == decode5_to16_tail(raw, k as int, 0));
            assert forall|kk: int, j: int| 0 <= kk < k + 1 && 0 <= j < 1 implies ints@[60 + 1 * kk + j]
                == #[trigger] decode5_to16_tail(raw, kk, j) by {
                if kk < k {
                    assert(prev[60 + 1 * kk + j] == decode5_to16_tail(raw, kk, j));
                }
            }
            assert forall|m: int|
                0 <= m < BLOCK_SIZE && !(60 <= m < 60 + 1 * (k + 1)) implies #[trigger] ints@[m] == mid[m] by {
                assert(prev[m] == mid[m]);
            }
        }
        tmp_idx = tmp_idx + 5;
        ints_idx = ints_idx + 1;
        k = k + 1;
    }
}

/// Value `j` of group `kk` that `decode6_to16` stitches together from the
/// masked remainders of the raw words.
pub open spec fn decode6_to16_tail(raw: Seq<u32>, kk: int, j: int) -> u32 {
    if j == 0 {
        ((raw[3 * kk + 0] & MASK16_4) << 2) | (((raw[3 * kk + 1] & MASK16_4) >> 2) & MASK16_2)
    } else {
        (((raw[3 * kk + 1] & MASK16_4) & MASK16_2) << 4) | (raw[3 * kk + 2] & MASK16_4)
    }
}

fn decode6_to16(input: &mut Reader<'_>, tmp: &mut [u32; BLOCK_SIZE], ints: &mut [u32; BLOCK_SIZE])
    ensures
        final(input).buf@ == old(input).buf@,
        final(input).pos == words_pos(old(input).buf@.len() as int, old(input).pos as int, 24),
        forall|m: int|
            0 <= m < BLOCK_SIZE && !(48 <= m < 64) ==> #[trigger] final(ints)@[m] == (if m < bands_len(
                24,
                10,
                6,
            ) {
                band(raw_words(old(input).buf@, old(input).pos as int, 24), 24, 10, 6, MASK16_6, m)
            } else {
                old(ints)@[m]
            }),
        forall|kk: int, j: int|
            0 <= kk < 8 && 0 <= j < 2 ==> final(ints)@[48 + 2 * kk + j] == #[trigger] decode6_to16_tail(
                raw_words(old(input).buf@, old(input).pos as int, 24),
                kk,
                j,
            ),
{
    let ghost raw = raw_words(input.buf@, input.pos as int, 24);
    split_ints_tmp(input, 24, ints, 10, 6, MASK16_6, tmp, MASK16_4);
    let ghost t0 = tmp@;
    let ghost mid = ints@;
    let mut tmp_idx: usize = 0;
    let mut ints_idx: usize = 48;
    let mut k: usize = 0;
    while k < 8
        invariant
            k <= 8,
            tmp_idx == 3 * k,
            ints_idx == 48 + 2 * k,
            tmp@ == t0,
            forall|x: int| 0 <= x < 24 ==> #[trigger] t0[x] == raw[x] & MASK16_4,
            forall|m: int|
                0 <= m < BLOCK_SIZE && !(48 <= m < 48 + 2 * k) ==> #[trigger] ints@[m] == mid[m],
            forall|kk: int, j: int|
                0 <= kk < k && 0 <= j < 2 ==> ints@[48 + 2 * kk + j] == #[trigger] decode6_to16_tail(raw, kk, j),
        decreases 8 - k,
    {
        let ghost prev = ints@;
        let mut l0: u32 = tmp[tmp_idx] << 2;
        l0 |= (tmp[tmp_idx + 1] >> 2) & MASK16_2;
        ints[ints_idx] = l0;
        let mut l1: u32 = (tmp[tmp_idx + 1] & MASK16_2) << 4;
        l1 |= tmp[tmp_idx + 2];
        ints[ints_idx + 1] = l1;
        proof {
            assert(ints@[48 + 2 * k + 0] == decode6_to16_tail(raw, k as int, 0));
            assert(ints@[48 + 2 * k + 1] == decode6_to16_tail(raw, k as int, 1));
            assert forall|kk: int, j: int| 0 <= kk < k + 1 && 0 <= j < 2 implies ints@[48 + 2 * kk + j]
                == #[trigger] decode6_to16_tail(raw, kk, j) by {
                if kk < k {
                    assert(prev[48 + 2 * kk + j] == decode6_to16_tail(raw, kk, j));
                }
            }
            assert forall|m: int|
                0 <= m < BLOCK_SIZE && !(48 <= m < 48 + 2 * (k + 1)) implies #[trigger] ints@[m] == mid[m] by {
                assert(prev[m] == mid[m]);
            }
        }
        tmp_idx = tmp_idx + 3;
        ints_idx = ints_idx + 2;
        k = k + 1;
    }
}

/// Value `j` of group `kk` that `decode7_to16` stitches together from the
/// masked remainders of the raw words.
pub open spec fn decode7_to16_tail(raw: Seq<u32>, kk: int, j: int) -> u32 {
    if j == 0 {
        ((((raw[7 * kk + 0] & MASK16_2) << 5) | ((raw[7 * kk + 1] & MASK16_2) << 3)) | ((raw[7 * kk + 2] & MASK16_2) << 1)) | (((raw[7 * kk + 3] & MASK16_2) >> 1) & MASK16_1)
    } else {
        (((((raw[7 * kk + 3] & MASK16_2) & MASK16_1) << 6) | ((raw[7 * kk + 4] & MASK16_2) << 4)) | ((raw[7 * kk + 5] & MASK16_2) << 2)) | (raw[7 * kk + 6] & MASK16_2)
    }
}

fn decode7_to16(input: &mut Reader<'_>, tmp: &mut [u32; BLOCK_SIZE], ints: &mut [u32; BLOCK_SIZE])
    ensures
        final(input).buf@ == old(input).buf@,
        final(input).pos == words_pos(old(input).buf@.len() as int, old(input).pos as int, 28),
        forall|m: int|
            0 <= m < BLOCK_SIZE && !(56 <= m < 64) ==> #[trigger] final(ints)@[m] == (if m < bands_len(
                28,
                9,
                7,
            ) {
                band(raw_words(old(input).buf@, old(input).pos as int, 28), 28, 9, 7, MASK16_7, m)
            } else {
                old(ints)@[m]
            }),
        forall|kk: int, j: int|
            0 <= kk < 4 && 0 <= j < 2 ==> final(ints)@[56 + 2 * kk + j] == #[trigger] decode7_to16_tail(
                raw_words(old(input).buf@, old(input).pos as int, 28),
                kk,
                j,
            ),
{
    let ghost raw = raw_words(input.buf@, input.pos as int, 28);
    split_ints_tmp(input, 28, ints, 9, 7, MASK16_7, tmp, MASK16_2);
    let ghost t0 = tmp@;
    let ghost mid = ints@;
    let mut tmp_idx: usize = 0;
    let mut ints_idx: usize = 56;
    let mut k: usize = 0;
    while k < 4
        invariant
            k <= 4,
            tmp_idx == 7 * k,
            ints_idx == 56 + 2 * k,
            tmp@ == t0,
            forall|x: int| 0 <= x < 28 ==> #[trigger] t0[x] == raw[x] & MASK16_2,
            forall|m: int|
                0 <= m < BLOCK_SIZE && !(56 <= m < 56 + 2 * k) ==> #[trigger] ints@[m] == mid[m],
            forall|kk: int, j: int|
                0 <= kk < k && 0 <= j < 2 ==> ints@[56 + 2 * kk + j] == #[trigger] decode7_to16_tail(raw, kk, j),
        decreases 4 - k,
    {
        let ghost prev = ints@;
        let mut l0: u32 = tmp[tmp_idx] << 5;
        l0 |= tmp[tmp_idx + 1] << 3;
        l0 |= tmp[tmp_idx + 2] << 1;
        l0 |= (tmp[tmp_idx + 3] >> 1) & MASK16_1;
        ints[ints_idx] = l0;
        let mut l1: u32 = (tmp[tmp_idx + 3] & MASK16_1) << 6;
        l1 |= tmp[tmp_idx + 4] << 4;
        l1 |= tmp[tmp_idx + 5] << 2;
        l1 |= tmp[tmp_idx + 6];
        ints[ints_idx + 1] = l1;
        proof {
            assert(ints@[56 + 2 * k + 0] == decode7_to16_tail(raw, k as int, 0));
            assert(ints@[56 + 2 * k + 1] == decode7_to16_tail(raw, k as int, 1));
            assert forall|kk: int, j: int| 0 <= kk < k + 1 && 0 <= j < 2 implies ints@[56 + 2 * kk + j]
                == #[trigger] decode7_to16_tail(raw, kk, j) by {
                if kk < k {
                    assert(prev[56 + 2 * kk + j] == decode7_to16_tail(raw, kk, j));
                }
            }
            assert forall|m: int|
                0 <= m < BLOCK_SIZE && !(56 <= m < 56 + 2 * (k + 1)) implies #[trigger] ints@[m] == mid[m] by {
                assert(prev[m] == mid[m]);
            }
        }
        tmp_idx = tmp_idx + 7;
        ints_idx = ints_idx + 2;
        k = k + 1;
    }
}

fn decode8_to16(input: &mut Reader<'_>, ints: &mut [u32; BLOCK_SIZE])
    ensures
        final(input).buf@ == old(input).buf@,
        final(input).pos == words_pos(old(input).buf@.len() as int, old(input).pos as int, 32),
        forall|k: int|
            0 <= k < BLOCK_SIZE ==> #[trigger] final(ints)@[k] == split_at(
                old(ints)@,
                raw_words(old(input).buf@, old(input).pos as int, 32),
                32,
                8,
                8,
                MASK16_8,
                32,
                MASK16_8,
                k,
            ),
{
    split_ints(input, 32, ints, 8, 8, MASK16_8, 32, MASK16_8);
}

/// Value `j` of group `kk` that `decode11_to32` stitches together from the
/// masked remainders of the raw words.
pub open spec fn decode11_to32_tail(raw: Seq<u32>, kk: int, j: int) -> u32 {
    if j == 0 {
        ((raw[11 * kk + 0] & MASK32_10) << 1) | (((raw[11 * kk + 1] & MASK32_10) >> 9) & MASK32_1)
    } else if j == 1 {
        (((raw[11 * kk + 1] & MASK32_10) & MASK32_9) << 2) | (((raw[11 * kk + 2] & MASK32_10) >> 8) & MASK32_2)
    } else if j == 2 {
        (((raw[11 * kk + 2] & MASK32_10) & MASK32_8) << 3) | (((raw[11 * kk + 3] & MASK32_10) >> 7) & MASK32_3)
    } else if j == 3 {
        (((raw[11 * kk + 3] & MASK32_10) & MASK32_7) << 4) | (((raw[11 * kk + 4] & MASK32_10) >> 6) & MASK32_4)
    } else if j == 4 {
        (((raw[11 * kk + 4] & MASK32_10) & MASK32_6) << 5) | (((raw[11 * kk + 5] & MASK32_10) >> 5) & MASK32_5)
    } else if j == 5 {
        (((raw[11 * kk + 5] & MASK32_10) & MASK32_5) << 6) | (((raw[11 * kk + 6] & MASK32_10) >> 4) & MASK32_6)
    } else if j == 6 {
        (((raw[11 * kk + 6] & MASK32_10) & MASK32_4) << 7) | (((raw[11 * kk + 7] & MASK32_10) >> 3) & MASK32_7)
    } else if j == 7 {
        (((raw[11 * kk + 7] & MASK32_10) & MASK32_3) << 8) | (((raw[11 * kk + 8] & MASK32_10) >> 2) & MASK32_8)
    } else if j == 8 {
        (((raw[11 * kk + 8] & MASK32_10) & MASK32_2) << 9) | (((raw[11 * kk + 9] & MASK32_10) >> 1) & MASK32_9)
    } else {
        (((raw[11 * kk + 9] & MASK32_10) & MASK32_1) << 10) | (raw[11 * kk + 10] & MASK32_10)
    }
}

fn decode11_to32(input: &mut Reader<'_>, tmp: &mut [u32; BLOCK_SIZE], ints: &mut [u32; BLOCK_SIZE])
    ensures
        final(input).buf@ == old(input).buf@,
        final(input).pos == words_pos(old(input).buf@.len() as int, old(input).pos as int, 44),
        forall|m: int|
            0 <= m < BLOCK_SIZE && !(88 <= m < 128) ==> #[trigger] final(ints)@[m] == (if m < bands_len(
                44,
                21,
                11,
            ) {
                band(raw_words(old(input).buf@, old(input).pos as int, 44), 44, 21, 11, MASK32_11, m)
            } else {
                old(ints)@[m]
            }),
        forall|kk: int, j: int|
            0 <= kk < 4 && 0 <= j < 10 ==> final(ints)@[88 + 10 * kk + j] == #[trigger] decode11_to32_tail(
                raw_words(old(input).buf@, old(input).pos as int, 44),
                kk,
                j,
            ),
{
    let ghost raw = raw_words(input.buf@, input.pos as int, 44);
    split_ints_tmp(input, 44, ints, 21, 11, MASK32_11, tmp, MASK32_10);
    let ghost t0 = tmp@;
    let ghost mid = ints@;
    let mut tmp_idx: usize = 0;
    let mut ints_idx: usize = 88;
    let mut k: usize = 0;
    while k < 4
        invariant
            k <= 4,
            tmp_idx == 11 * k,
            ints_idx == 88 + 10 * k,
            tmp@ == t0,
            forall|x: int| 0 <= x < 44 ==> #[trigger] t0[x] == raw[x] & MASK32_10,
            forall|m: int|
                0 <= m < BLOCK_SIZE && !(88 <= m < 88 + 10 * k) ==> #[trigger] ints@[m] == mid[m],
            forall|kk: int, j: int|
                0 <= kk < k && 0 <= j < 10 ==> ints@[88 + 10 * kk + j] == #[trigger] decode11_to32_tail(raw, kk, j),
        decreases 4 - k,
    {
        let ghost prev = ints@;
        let mut l0: u32 = tmp[tmp_idx] << 1;
        l0 |= (tmp[tmp_idx + 1] >> 9) & MASK32_1;
        ints[ints_idx] = l0;
        let mut l1: u32 = (tmp[tmp_idx + 1] & MASK32_9) << 2;
        l1 |= (tmp[tmp_idx + 2] >> 8) & MASK32_2;
        ints[ints_idx + 1] = l1;
        let mut l2: u32 = (tmp[tmp_idx + 2] & MASK32_8) << 3;
        l2 |= (tmp[tmp_idx + 3] >> 7) & MASK32_3;
        ints[ints_idx + 2] = l2;
        let mut l3: u32 = (tmp[tmp_idx + 3] & MASK32_7) << 4;
        l3 |= (tmp[tmp_idx + 4] >> 6) & MASK32_4;
        ints[ints_idx + 3] = l3;
        let mut l4: u32 = (tmp[tmp_idx + 4] & MASK32_6) << 5;
        l4 |= (tmp[tmp_idx + 5] >> 5) & MASK32_5;
        ints[ints_idx + 4] = l4;
        let mut l5: u32 = (tmp[tmp_idx + 5] & MASK32_5) << 6;
        l5 |= (tmp[tmp_idx + 6] >> 4) & MASK32_6;
        ints[ints_idx + 5] = l5;
        let mut l6: u32 = (tmp[tmp_idx + 6] & MASK32_4) << 7;
        l6 |= (tmp[tmp_idx + 7] >> 3) & MASK32_7;
        ints[ints_idx + 6] = l6;
        let mut l7: u32 = (tmp[tmp_idx + 7] & MASK32_3) << 8;
        l7 |= (tmp[tmp_idx + 8] >> 2) & MASK32_8;
        ints[ints_idx + 7] = l7;
        let mut l8: u32 = (tmp[tmp_idx + 8] & MASK32_2) << 9;
        l8 |= (tmp[tmp_idx + 9] >> 1) & MASK32_9;
        ints[ints_idx + 8] = l8;
        let mut l9: u32 = (tmp[tmp_idx + 9] & MASK32_1) << 10;
        l9 |= tmp[tmp_idx + 10];
        ints[ints_idx + 9] = l9;
        proof {
            assert(ints@[88 + 10 * k + 0] == decode11_to32_tail(raw, k as int, 0));
            assert(ints@[88 + 10 * k + 1] == decode11_to32_tail(raw, k as int, 1));
            assert(ints@[88 + 10 * k + 2] == decode11_to32_tail(raw, k as int, 2));
            assert(ints@[88 + 10 * k + 3] == decode11_to32_tail(raw, k as int, 3));
            assert(ints@[88 + 10 * k + 4] == decode11_to32_tail(raw, k as int, 4));
            assert(ints@[88 + 10 * k + 5] == decode11_to32_tail(raw, k as int, 5));
            assert(ints@[88 + 10 * k + 6] == decode11_to32_tail(raw, k as int, 6));
            assert(ints@[88 + 10 * k + 7] == decode11_to32_tail(raw, k as int, 7));
            assert(ints@[88 + 10 * k + 8] == decode11_to32_tail(raw, k as int, 8));
            assert(ints@[88 + 10 * k + 9] == decode11_to32_tail(raw, k as int, 9));
            assert forall|kk: int, j: int| 0 <= kk < k + 1 && 0 <= j < 10 implies ints@[88 + 10 * kk + j]
                == #[trigger] decode11_to32_tail(raw, kk, j) by {
                if kk < k {
                    assert(prev[88 + 10 * kk + j] == decode11_to32_tail(raw, kk, j));
                }
            }
            assert forall|m: int|
                0 <= m < BLOCK_SIZE && !(88 <= m < 88 + 10 * (k + 1)) implies #[trigger] ints@[m] == mid[m] by {
                assert(prev[m] == mid[m]);
            }
        }
        tmp_idx = tmp_idx + 11;
        ints_idx = ints_idx + 10;
        k = k + 1;
    }
}

/// Value `j` of group `kk` that `decode12_to32` stitches together from the
/// masked remainders of the raw words.
pub open spec fn decode12_to32_tail(raw: Seq<u32>, kk: int, j: int) -> u32 {
    if j == 0 {
        ((raw[3 * kk + 0] & MASK32_8) << 4) | (((raw[3 * kk + 1] & MASK32_8) >> 4) & MASK32_4)
    } else {
        (((raw[3 * kk + 1] & MASK32_8) & MASK32_4) << 8) | (raw[3 * kk + 2] & MASK32_8)
    }
}

fn decode12_to32(input: &mut Reader<'_>, tmp: &mut [u32; BLOCK_SIZE], ints: &mut [u32; BLOCK_SIZE])
    ensures
        final(input).buf@ == old(input).buf@,
        final(input).pos == words_pos(old(input).buf@.len() as int, old(input).pos as int, 48),
        forall|m: int|
            0 <= m < BLOCK_SIZE && !(96 <= m < 128) ==> #[trigger] final(ints)@[m] == (if m < bands_len(
                48,
                20,
                12,
            ) {
                band(raw_words(old(input).buf@, old(input).pos as int, 48), 48, 20, 12, MASK32_12, m)
            } else {
                old(ints)@[m]
            }),
        forall|kk: int, j: int|
            0 <= kk < 16 && 0 <= j < 2 ==> final(ints)@[96 + 2 * kk + j] == #[trigger] decode12_to32_tail(
                raw_words(old(input).buf@, old(input).pos as int, 48),
                kk,
                j,
            ),
{
    let ghost raw = raw_words(input.buf@, input.pos as int, 48);
    split_ints_tmp(input, 48, ints, 20, 12, MASK32_12, tmp, MASK32_8);
    let ghost t0 = tmp@;
    let ghost mid = ints@;
    let mut tmp_idx: usize = 0;
    let mut ints_idx: usize = 96;
    let mut k: usize = 0;
    while k < 16
        invariant
            k <= 16,
            tmp_idx == 3 * k,
            ints_idx == 96 + 2 * k,
            tmp@ == t0,
            forall|x: int| 0 <= x < 48 ==> #[trigger] t0[x] == raw[x] & MASK32_8,
            forall|m: int|
                0 <= m < BLOCK_SIZE && !(96 <= m < 96 + 2 * k) ==> #[trigger] ints@[m] == mid[m],
            forall|kk: int, j: int|
                0 <= kk < k && 0 <= j < 2 ==> ints@[96 + 2 * kk + j] == #[trigger] decode12_to32_tail(raw, kk, j),
        decreases 16 - k,
    {
        let ghost prev = ints@;
        let mut l0: u32 = tmp[tmp_idx] << 4;
        l0 |= (tmp[tmp_idx + 1] >> 4) & MASK32_4;
        ints[ints_idx] = l0;
        let mut l1: u32 = (tmp[tmp_idx + 1] & MASK32_4) << 8;
        l1 |= tmp[tmp_idx + 2];
        ints[ints_idx + 1] = l1;
        proof {
            assert(ints@[96 + 2 * k + 0] == decode12_to32_tail(raw, k as int, 0));
            assert(ints@[96 + 2 * k + 1] == decode12_to32_tail(raw, k as int, 1));
            assert forall|kk: int, j: int| 0 <= kk < k + 1 && 0 <= j < 2 implies ints@[96 + 2 * kk + j]
                == #[trigger] decode12_to32_tail(raw, kk, j) by {
                if kk < k {
                    assert(prev[96 + 2 * kk + j] == decode12_to32_tail(raw, kk, j));
                }
            }
            assert forall|m: int|
                0 <= m < BLOCK_SIZE && !(96 <= m < 96 + 2 * (k + 1)) implies #[trigger] ints@[m] == mid[m] by {
                assert(prev[m] == mid[m]);
            }
        }
        tmp_idx = tmp_idx + 3;
        ints_idx = ints_idx + 2;
        k = k + 1;
    }
}

/// Value `j` of group `kk` that `decode13_to32` stitches together from the
/// masked remainders of the raw words.
pub open spec fn decode13_to32_tail(raw: Seq<u32>, kk: int, j: int) -> u32 {
    if j == 0 {
        (((raw[13 * kk + 0] & MASK32_6) << 7) | ((raw[13 * kk + 1] & MASK32_6) << 1)) | (((raw[13 * kk + 2] & MASK32_6) >> 5) & MASK32_1)
    } else if j == 1 {
        ((((raw[13 * kk + 2] & MASK32_6) & MASK32_5) << 8) | ((raw[13 * kk + 3] & MASK32_6) << 2)) | (((raw[13 * kk + 4] & MASK32_6) >> 4) & MASK32_2)
    } else if j == 2 {
        ((((raw[13 * kk + 4] & MASK32_6) & MASK32_4) << 9) | ((raw[13 * kk + 5] & MASK32_6) << 3)) | (((raw[13 * kk + 6] & MASK32_6) >> 3) & MASK32_3)
    } else if j == 3 {
        ((((raw[13 * kk + 6] & MASK32_6) & MASK32_3) << 10) | ((raw[13 * kk + 7] & MASK32_6) << 4)) | (((raw[13 * kk + 8] & MASK32_6) >> 2) & MASK32_4)
    } else if j == 4 {
        ((((raw[13 * kk + 8] & MASK32_6) & MASK32_2) << 11) | ((raw[13 * kk + 9] & MASK32_6) << 5)) | (((raw[13 * kk + 10] & MASK32_6) >> 1) & MASK32_5)
    } else {
        ((((raw[13 * kk + 10] & MASK32_6) & MASK32_1) << 12) | ((raw[13 * kk + 11] & MASK32_6) << 6)) | (raw[13 * kk + 12] & MASK32_6)
    }
}

fn decode13_to32(input: &mut Reader<'_>, tmp: &mut [u32; BLOCK_SIZE], ints: &mut [u32; BLOCK_SIZE])
    ensures
        final(input).buf@ == old(input).buf@,
        final(input).pos == words_pos(old(input).buf@.len() as int, old(input).pos as int, 52),
        forall|m: int|
            0 <= m < BLOCK_SIZE && !(104 <= m < 128) ==> #[trigger] final(ints)@[m] == (if m < bands_len(
                52,
                19,
                13,
            ) {
                band(raw_words(old(input).buf@, old(input).pos as int, 52), 52, 19, 13, MASK32_13, m)
            } else {
                old(ints)@[m]
            }),
        forall|kk: int, j: int|
            0 <= kk < 4 && 0 <= j < 6 ==> final(ints)@[104 + 6 * kk + j] == #[trigger] decode13_to32_tail(
                raw_words(old(input).buf@, old(input).pos as int, 52),
                kk,
                j,
            ),
{
    let ghost raw = raw_words(input.buf@, input.pos as int, 52);
    split_ints_tmp(input, 52, ints, 19, 13, MASK32_13, tmp, MASK32_6);
    let ghost t0 = tmp@;
    let ghost mid = ints@;
    let mut tmp_idx: usize = 0;
    let mut ints_idx: usize = 104;
    let mut k: usize = 0;
    while k < 4
        invariant
            k <= 4,
            tmp_idx == 13 * k,
            ints_idx == 104 + 6 * k,
            tmp@ == t0,
            forall|x: int| 0 <= x < 52 ==> #[trigger] t0[x] == raw[x] & MASK32_6,
            forall|m: int|
                0 <= m < BLOCK_SIZE && !(104 <= m < 104 + 6 * k) ==> #[trigger] ints@[m] == mid[m],
            forall|kk: int, j: int|
                0 <= kk < k && 0 <= j < 6 ==> ints@[104 + 6 * kk + j] == #[trigger] decode13_to32_tail(raw, kk, j),
        decreases 4 - k,
    {
        let ghost prev = ints@;
        let mut l0: u32 = tmp[tmp_idx] << 7;
        l0 |= tmp[tmp_idx + 1] << 1;
        l0 |= (tmp[tmp_idx + 2] >> 5) & MASK32_1;
        ints[ints_idx] = l0;
        let mut l1: u32 = (tmp[tmp_idx + 2] & MASK32_5) << 8;
        l1 |= tmp[tmp_idx + 3] << 2;
        l1 |= (tmp[tmp_idx + 4] >> 4) & MASK32_2;
        ints[ints_idx + 1] = l1;
        let mut l2: u32 = (tmp[tmp_idx + 4] & MASK32_4) << 9;
        l2 |= tmp[tmp_idx + 5] << 3;
        l2 |= (tmp[tmp_idx + 6] >> 3) & MASK32_3;
        ints[ints_idx + 2] = l2;
        let mut l3: u32 = (tmp[tmp_idx + 6] & MASK32_3) << 10;
        l3 |= tmp[tmp_idx + 7] << 4;
        l3 |= (tmp[tmp_idx + 8] >> 2) & MASK32_4;
        ints[ints_idx + 3] = l3;
        let mut l4: u32 = (tmp[tmp_idx + 8] & MASK32_2) << 11;
        l4 |= tmp[tmp_idx + 9] << 5;
        l4 |= (tmp[tmp_idx + 10] >> 1) & MASK32_5;
        ints[ints_idx + 4] = l4;
        let mut l5: u32 = (tmp[tmp_idx + 10] & MASK32_1) << 12;
        l5 |= tmp[tmp_idx + 11] << 6;
        l5 |= tmp[tmp_idx + 12];
        ints[ints_idx + 5] = l5;
        proof {
            assert(ints@[104 + 6 * k + 0] == decode13_to32_tail(raw, k as int, 0));
            assert(ints@[104 + 6 * k + 1] == decode13_to32_tail(raw, k as int, 1));
            assert(ints@[104 + 6 * k + 2] == decode13_to32_tail(raw, k as int, 2));
            assert(ints@[104 + 6 * k + 3] == decode13_to32_tail(raw, k as int, 3));
            assert(ints@[104 + 6 * k + 4] == decode13_to32_tail(raw, k as int, 4));
            assert(ints@[104 + 6 * k + 5] == decode13_to32_tail(raw, k as int, 5));
            assert forall|kk: int, j: int| 0 <= kk < k + 1 && 0 <= j < 6 implies ints@[104 + 6 * kk + j]
                == #[trigger] decode13_to32_tail(raw, kk, j) by {
                if kk < k {
                    assert(prev[104 + 6 * kk + j] == decode13_to32_tail(raw, kk, j));
                }
            }
            assert forall|m: int|
                0 <= m < BLOCK_SIZE && !(104 <= m < 104 + 6 * (k + 1)) implies #[trigger] ints@[m] == mid[m] by {
                assert(prev[m] == mid[m]);
            }
        }
        tmp_idx = tmp_idx + 13;
        ints_idx = ints_idx + 6;
        k = k + 1;
    }
}

/// Value `j` of group `kk` that `decode14_to32` stitches together from the
/// masked remainders of the raw words.
pub open spec fn decode14_to32_tail(raw: Seq<u32>, kk: int, j: int) -> u32 {
    if j == 0 {
        ((((raw[7 * kk + 0] & MASK32_4) << 10) | ((raw[7 * kk + 1] & MASK32_4) << 6)) | ((raw[7 * kk + 2] & MASK32_4) << 2)) | (((raw[7 * kk + 3] & MASK32_4) >> 2) & MASK32_2)
    } else {
        (((((raw[7 * kk + 3] & MASK32_4) & MASK32_2) << 12) | ((raw[7 * kk + 4] & MASK32_4) << 8)) | ((raw[7 * kk + 5] & MASK32_4) << 4)) | (raw[7 * kk + 6] & MASK32_4)
    }
}

fn decode14_to32(input: &mut Reader<'_>, tmp: &mut [u32; BLOCK_SIZE], ints: &mut [u32; BLOCK_SIZE])
    ensures
        final(input).buf@ == old(input).buf@,
        final(input).pos == words_pos(old(input).buf@.len() as int, old(input).pos as int, 56),
        forall|m: int|
            0 <= m < BLOCK_SIZE && !(112 <= m < 128) ==> #[trigger] final(ints)@[m] == (if m < bands_len(
                56,
                18,
                14,
            ) {
                band(raw_words(old(input).buf@, old(input).pos as int, 56), 56, 18, 14, MASK32_14, m)
            } else {
                old(ints)@[m]
            }),
        forall|kk: int, j: int|
            0 <= kk < 8 && 0 <= j < 2 ==> final(ints)@[112 + 2 * kk + j] == #[trigger] decode14_to32_tail(
                raw_words(old(input).buf@, old(input).pos as int, 56),
                kk,
                j,
            ),
{
    let ghost raw = raw_words(input.buf@, input.pos as int, 56);
    split_ints_tmp(input, 56, ints, 18, 14, MASK32_14, tmp, MASK32_4);
    let ghost t0 = tmp@;
    let ghost mid = ints@;
    let mut tmp_idx: usize = 0;
    let mut ints_idx: usize = 112;
    let mut k: usize = 0;
    while k < 8
        invariant
            k <= 8,
            tmp_idx == 7 * k,
            ints_idx == 112 + 2 * k,
            tmp@ == t0,
            forall|x: int| 0 <= x < 56 ==> #[trigger] t0[x] == raw[x] & MASK32_4,
            forall|m: int|
                0 <= m < BLOCK_SIZE && !(112 <= m < 112 + 2 * k) ==> #[trigger] ints@[m] == mid[m],
            forall|kk: int, j: int|
                0 <= kk < k && 0 <= j < 2 ==> ints@[112 + 2 * kk + j] == #[trigger] decode14_to32_tail(raw, kk, j),
        decreases 8 - k,
    {
        let ghost prev = ints@;
        let mut l0: u32 = tmp[tmp_idx] << 10;
        l0 |= tmp[tmp_idx + 1] << 6;
        l0 |= tmp[tmp_idx + 2] << 2;
        l0 |= (tmp[tmp_idx + 3] >> 2) & MASK32_2;
        ints[ints_idx] = l0;
        let mut l1: u32 = (tmp[tmp_idx + 3] & MASK32_2) << 12;
        l1 |= tmp[tmp_idx + 4] << 8;
        l1 |= tmp[tmp_idx + 5] << 4;
        l1 |= tmp[tmp_idx + 6];
        ints[ints_idx + 1] = l1;
        proof {
            assert(ints@[112 + 2 * k + 0] == decode14_to32_tail(raw, k as int, 0));
            assert(ints@[112 + 2 * k + 1] == decode14_to32_tail(raw, k as int, 1));
            assert forall|kk: int, j: int| 0 <= kk < k + 1 && 0 <= j < 2 implies ints@[112 + 2 * kk + j]
                == #[trigger] decode14_to32_tail(raw, kk, j) by {
                if kk < k {
                    assert(prev[112 + 2 * kk + j] == decode14_to32_tail(raw, kk, j));
                }
            }
            assert forall|m: int|
                0 <= m < BLOCK_SIZE && !(112 <= m < 112 + 2 * (k + 1)) implies #[trigger] ints@[m] == mid[m] by {
                assert(prev[m] == mid[m]);
            }
        }
        tmp_idx = tmp_idx + 7;
        ints_idx = ints_idx + 2;
        k = k + 1;
    }
}

/// Value `j` of group `kk` that `decode15_to32` stitches together from the
/// masked remainders of the raw words.
pub open spec fn decode15_to32_tail(raw: Seq<u32>, kk: int, j: int) -> u32 {
    if j == 0 {
        ((((((((raw[15 * kk + 0] & MASK32_2) << 13) | ((raw[15 * kk + 1] & MASK32_2) << 11)) | ((raw[15 * kk + 2] & MASK32_2) << 9)) | ((raw[15 * kk + 3] & MASK32_2) << 7)) | ((raw[15 * kk + 4] & MASK32_2) << 5)) | ((raw[15 * kk + 5] & MASK32_2) << 3)) | ((raw[15 * kk + 6] & MASK32_2) << 1)) | (((raw[15 * kk + 7] & MASK32_2) >> 1) & MASK32_1)
    } else {
        (((((((((raw[15 * kk + 7] & MASK32_2) & MASK32_1) << 14) | ((raw[15 * kk + 8] & MASK32_2) << 12)) | ((raw[15 * kk + 9] & MASK32_2) << 10)) | ((raw[15 * kk + 10] & MASK32_2) << 8)) | ((raw[15 * kk + 11] & MASK32_2) << 6)) | ((raw[15 * kk + 12] & MASK32_2) << 4)) | ((raw[15 * kk + 13] & MASK32_2) << 2)) | (raw[15 * kk + 14] & MASK32_2)
    }
}

fn decode15_to32(input: &mut Reader<'_>, tmp: &mut [u32; BLOCK_SIZE], ints: &mut [u32; BLOCK_SIZE])
    ensures
        final(input).buf@ == old(input).buf@,
        final(input).pos == words_pos(old(input).buf@.len() as int, old(input).pos as int, 60),
        forall|m: int|
            0 <= m < BLOCK_SIZE && !(120 <= m < 128) ==> #[trigger] final(ints)@[m] == (if m < bands_len(
                60,
                17,
                15,
            ) {
                band(raw_words(old(input).buf@, old(input).pos as int, 60), 60, 17, 15, MASK32_15, m)
            } else {
                old(ints)@[m]
            }),
        forall|kk: int, j: int|
            0 <= kk < 4 && 0 <= j < 2 ==> final(ints)@[120 + 2 * kk + j] == #[trigger] decode15_to32_tail(
                raw_words(old(input).buf@, old(input).pos as int, 60),
                kk,
                j,
            ),
{
    let ghost raw = raw_words(input.buf@, input.pos as int, 60);
    split_ints_tmp(input, 60, ints, 17, 15, MASK32_15, tmp, MASK32_2);
    let ghost t0 = tmp@;
    let ghost mid = ints@;
    let mut tmp_idx: usize = 0;
    let mut ints_idx: usize = 120;
    let mut k: usize = 0;
    while k < 4
        invariant
            k <= 4,
            tmp_idx == 15 * k,
            ints_idx == 120 + 2 * k,
            tmp@ == t0,
            forall|x: int| 0 <= x < 60 ==> #[trigger] t0[x] == raw[x] & MASK32_2,
            forall|m: int|
                0 <= m < BLOCK_SIZE && !(120 <= m < 120 + 2 * k) ==> #[trigger] ints@[m] == mid[m],
            forall|kk: int, j: int|
                0 <= kk < k && 0 <= j < 2 ==> ints@[120 + 2 * kk + j] == #[trigger] decode15_to32_tail(raw, kk, j),
        decreases 4 - k,
    {
        let ghost prev = ints@;
        let mut l0: u32 = tmp[tmp_idx] << 13;
        l0 |= tmp[tmp_idx + 1] << 11;
        l0 |= tmp[tmp_idx + 2] << 9;
        l0 |= tmp[tmp_idx + 3] << 7;
        l0 |= tmp[tmp_idx + 4] << 5;
        l0 |= tmp[tmp_idx + 5] << 3;
        l0 |= tmp[tmp_idx + 6] << 1;
        l0 |= (tmp[tmp_idx + 7] >> 1) & MASK32_1;
        ints[ints_idx] = l0;
        let mut l1: u32 = (tmp[tmp_idx + 7] & MASK32_1) << 14;
        l1 |= tmp[tmp_idx + 8] << 12;
        l1 |= tmp[tmp_idx + 9] << 10;
        l1 |= tmp[tmp_idx + 10] << 8;
        l1 |= tmp[tmp_idx + 11] << 6;
        l1 |= tmp[tmp_idx + 12] << 4;
        l1 |= tmp[tmp_idx + 13] << 2;
        l1 |= tmp[tmp_idx + 14];
        ints[ints_idx + 1] = l1;
        proof {
            assert(ints@[120 + 2 * k + 0] == decode15_to32_tail(raw, k as int, 0));
            assert(ints@[120 + 2 * k + 1] == decode15_to32_tail(raw, k as int, 1));
            assert forall|kk: int, j: int| 0 <= kk < k + 1 && 0 <= j < 2 implies ints@[120 + 2 * kk + j]
                == #[trigger] decode15_to32_tail(raw, kk, j) by {
                if kk < k {
                    assert(prev[120 + 2 * kk + j] == decode15_to32_tail(raw, kk, j));
                }
            }
            assert forall|m: int|
                0 <= m < BLOCK_SIZE && !(120 <= m < 120 + 2 * (k + 1)) implies #[trigger] ints@[m] == mid[m] by {
                assert(prev[m] == mid[m]);
            }
        }
        tmp_idx = tmp_idx + 15;
        ints_idx = ints_idx + 2;
        k = k + 1;
    }
}

fn decode16_to32(input: &mut Reader<'_>, ints: &mut [u32; BLOCK_SIZE])
    ensures
        final(input).buf@ == old(input).buf@,
        final(input).pos == words_pos(old(input).buf@.len() as int, old(input).pos as int, 64),
        forall|k: int|
            0 <= k < BLOCK_SIZE ==> #[trigger] final(ints)@[k] == split_at(
                old(ints)@,
                raw_words(old(input).buf@, old(input).pos as int, 64),
                64,
                16,
                16,
                MASK32_16,
                64,
                MASK32_16,
                k,
            ),
{
    split_ints(input, 64, ints, 16, 16, MASK32_16, 64, MASK32_16);
}

} // verus!
