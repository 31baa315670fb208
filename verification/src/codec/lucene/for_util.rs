//! Lucene 10.3.1 `ForUtil`: bit-pack 128 integers at a fixed bits-per-value.
//!
//! Primitive width follows bpv: 8-bit lanes at bpv <= 8, 16-bit at <= 16,
//! else 32-bit. Decode splits the packed words into shift bands, then
//! stitches the leftover bits for bpv that do not divide the lane width.
//! `decode(32, ...)` reads 128 raw little-endian ints.

use vstd::prelude::*;

use super::io::{fixed_read_pos, Reader, write_u32_le};
use crate::bytes::{le_u32, lemma_u32_roundtrip, lemma_words_le, u32_at, words_le};

verus! {

pub const BLOCK_SIZE: usize = 128;

pub const MASK8_1: u32 = 0x01010101;
pub const MASK8_2: u32 = 0x03030303;
pub const MASK8_3: u32 = 0x07070707;
pub const MASK8_4: u32 = 0x0f0f0f0f;
pub const MASK8_5: u32 = 0x1f1f1f1f;
pub const MASK8_6: u32 = 0x3f3f3f3f;
pub const MASK8_7: u32 = 0x7f7f7f7f;
pub const MASK16_1: u32 = 0x00010001;
pub const MASK16_2: u32 = 0x00030003;
pub const MASK16_3: u32 = 0x00070007;
pub const MASK16_4: u32 = 0x000f000f;
pub const MASK16_5: u32 = 0x001f001f;
pub const MASK16_6: u32 = 0x003f003f;
pub const MASK16_7: u32 = 0x007f007f;
pub const MASK16_8: u32 = 0x00ff00ff;
pub const MASK16_9: u32 = 0x01ff01ff;
pub const MASK16_10: u32 = 0x03ff03ff;
pub const MASK16_11: u32 = 0x07ff07ff;
pub const MASK16_12: u32 = 0x0fff0fff;
pub const MASK16_13: u32 = 0x1fff1fff;
pub const MASK16_14: u32 = 0x3fff3fff;
pub const MASK16_15: u32 = 0x7fff7fff;
pub const MASK32_1: u32 = 0x00000001;
pub const MASK32_2: u32 = 0x00000003;
pub const MASK32_3: u32 = 0x00000007;
pub const MASK32_4: u32 = 0x0000000f;
pub const MASK32_5: u32 = 0x0000001f;
pub const MASK32_6: u32 = 0x0000003f;
pub const MASK32_7: u32 = 0x0000007f;
pub const MASK32_8: u32 = 0x000000ff;
pub const MASK32_9: u32 = 0x000001ff;
pub const MASK32_10: u32 = 0x000003ff;
pub const MASK32_11: u32 = 0x000007ff;
pub const MASK32_12: u32 = 0x00000fff;
pub const MASK32_13: u32 = 0x00001fff;
pub const MASK32_14: u32 = 0x00003fff;
pub const MASK32_15: u32 = 0x00007fff;
pub const MASK32_16: u32 = 0x0000ffff;

/// Bits needed to hold `x`: one for zero, else 32 minus its leading zeros.
pub fn bits_required(x: u32) -> (r: u32)
    ensures
        1 <= r <= 32,
        r < 32 ==> x >> r == 0,
        r > 1 ==> x >> ((r - 1) as u32) != 0,
{
    let lz = x.leading_zeros();
    proof {
        vstd::std_specs::bits::axiom_u32_leading_zeros(x);
    }
    let w = 32 - lz;
    if w < 1 {
        assert(x == 0);
        proof {
            vstd::bits::lemma_u32_shr_is_div(0u32, 1u32);
            vstd::arithmetic::power2::lemma2_to64();
        }
        1
    } else {
        proof {
            let u = (31 - lz) as u32;
            assert((x >> u) & 1 != 0);
            assert((x >> u) & 1u32 != 0u32 ==> x >> u != 0) by (bit_vector);
            let t = (32 - lz) as u32;
            assert(x >> t == 0);
        }
        w
    }
}

/// Bytes of one packed block: sixteen per bit of width.
pub fn num_bytes(bpv: u32) -> (r: usize)
    ensures
        r == (bpv as usize) << 4usize,
        bpv <= 32 ==> r == 16 * bpv,
{
    let r = (bpv as usize) << 4usize;
    proof {
        if bpv <= 32 {
            let b = bpv as usize;
            assert(b <= 32 ==> b << 4usize == 16 * b) by (bit_vector);
        }
    }
    r
}

/// The low `bits` bits set.
pub open spec fn low_mask(bits: u32) -> u32 {
    if bits == 0 {
        0
    } else if bits >= 32 {
        u32::MAX
    } else {
        ((1u32 << bits) - 1) as u32
    }
}

fn mask32(bits: u32) -> (r: u32)
    ensures
        r == low_mask(bits),
{
    if bits == 0 {
        0
    } else if bits >= 32 {
        u32::MAX
    } else {
        assert(bits < 32 ==> 1u32 << bits >= 1) by (bit_vector);
        (1u32 << bits) - 1
    }
}

/// `bits` set in each 16-bit half.
fn mask16(bits: u32) -> (r: u32)
    requires
        bits < 16,
    ensures
        r == low_mask(bits) | (low_mask(bits) << 16u32),
{
    let m = mask32(bits);
    m | (m << 16u32)
}

/// The low `bits` bits set in each 16-bit half.
pub open spec fn lane_mask16(bits: u32) -> u32 {
    low_mask(bits) | (low_mask(bits) << 16u32)
}

/// The low `bits` bits set in each byte.
pub open spec fn lane_mask8(bits: u32) -> u32 {
    (low_mask(bits) | (low_mask(bits) << 8u32)) | ((low_mask(bits) | (low_mask(bits) << 8u32))
        << 16u32)
}

/// `bits` set in each byte.
fn mask8(bits: u32) -> (r: u32)
    requires
        bits < 8,
    ensures
        r == lane_mask8(bits),
{
    let m = mask32(bits);
    let m16 = m | (m << 8u32);
    m16 | (m16 << 16u32)
}

/// The lane mask of `bits` bits for the given primitive width.
fn mask_for(primitive_size: u32, bits: u32) -> (r: u32)
    requires
        primitive_size == 8 ==> bits < 8,
        primitive_size == 16 ==> bits < 16,
        bits <= 32,
    ensures
        r == (if primitive_size == 8 {
            lane_mask8(bits)
        } else if primitive_size == 16 {
            lane_mask16(bits)
        } else {
            low_mask(bits)
        }),
{
    if primitive_size == 8 {
        mask8(bits)
    } else if primitive_size == 16 {
        mask16(bits)
    } else {
        mask32(bits)
    }
}


/// Packs the four 8-bit quarters of the block into the first 32 words, one
/// byte lane each.
#[verifier::spinoff_prover]
pub(crate) fn collapse8(arr: &mut [u32; BLOCK_SIZE])
    ensures
        forall|i: int|
            0 <= i < 32 ==> #[trigger] final(arr)@[i] == (old(arr)@[i] << 24u32) | (old(arr)@[32
                + i] << 16u32) | (old(arr)@[64 + i] << 8u32) | old(arr)@[96 + i],
        forall|i: int| 32 <= i < 128 ==> #[trigger] final(arr)@[i] == old(arr)@[i],
{
    let mut i: usize = 0;
    while i < 32
        invariant
            i <= 32,
            forall|j: int|
                0 <= j < i ==> #[trigger] arr@[j] == (old(arr)@[j] << 24u32) | (old(arr)@[32 + j]
                    << 16u32) | (old(arr)@[64 + j] << 8u32) | old(arr)@[96 + j],
            forall|j: int| i <= j < 128 ==> #[trigger] arr@[j] == old(arr)@[j],
        decreases 32 - i,
    {
        arr[i] = (arr[i] << 24u32) | (arr[32 + i] << 16u32) | (arr[64 + i] << 8u32) | arr[96 + i];
        i = i + 1;
    }
}

/// Spreads the byte lanes of the first 32 words back over the four quarters.
#[verifier::spinoff_prover]
pub(crate) fn expand8(arr: &mut [u32; BLOCK_SIZE])
    ensures
        forall|i: int|
            0 <= i < 32 ==> {
                &&& #[trigger] final(arr)@[i] == (old(arr)@[i] >> 24u32) & 0xff
                &&& final(arr)@[32 + i] == (old(arr)@[i] >> 16u32) & 0xff
                &&& final(arr)@[64 + i] == (old(arr)@[i] >> 8u32) & 0xff
                &&& final(arr)@[96 + i] == old(arr)@[i] & 0xff
            },
{
    let mut i: usize = 0;
    while i < 32
        invariant
            i <= 32,
            forall|j: int|
                0 <= j < i ==> {
                    &&& #[trigger] arr@[j] == (old(arr)@[j] >> 24u32) & 0xff
                    &&& arr@[32 + j] == (old(arr)@[j] >> 16u32) & 0xff
                    &&& arr@[64 + j] == (old(arr)@[j] >> 8u32) & 0xff
                    &&& arr@[96 + j] == old(arr)@[j] & 0xff
                },
            forall|j: int| i <= j < 32 ==> #[trigger] arr@[j] == old(arr)@[j],
        decreases 32 - i,
    {
        let ghost prev = arr@;
        let l = arr[i];
        arr[i] = (l >> 24u32) & 0xff;
        arr[32 + i] = (l >> 16u32) & 0xff;
        arr[64 + i] = (l >> 8u32) & 0xff;
        arr[96 + i] = l & 0xff;
        proof {
            assert forall|j: int| 0 <= j < i + 1 implies {
                &&& #[trigger] arr@[j] == (old(arr)@[j] >> 24u32) & 0xff
                &&& arr@[32 + j] == (old(arr)@[j] >> 16u32) & 0xff
                &&& arr@[64 + j] == (old(arr)@[j] >> 8u32) & 0xff
                &&& arr@[96 + j] == old(arr)@[j] & 0xff
            } by {
                if j < i {
                    assert(prev[j] == (old(arr)@[j] >> 24u32) & 0xff);
                    assert(prev[32 + j] == (old(arr)@[j] >> 16u32) & 0xff);
                    assert(prev[64 + j] == (old(arr)@[j] >> 8u32) & 0xff);
                    assert(prev[96 + j] == old(arr)@[j] & 0xff);
                } else {
                    assert(old(arr)@[j] == prev[j]);
                }
            }
        }
        i = i + 1;
    }
}

/// Packs the two 16-bit halves of the block into the first 64 words.
#[verifier::spinoff_prover]
pub(crate) fn collapse16(arr: &mut [u32; BLOCK_SIZE])
    ensures
        forall|i: int|
            0 <= i < 64 ==> #[trigger] final(arr)@[i] == (old(arr)@[i] << 16u32) | old(arr)@[64
                + i],
        forall|i: int| 64 <= i < 128 ==> #[trigger] final(arr)@[i] == old(arr)@[i],
{
    let mut i: usize = 0;
    while i < 64
        invariant
            i <= 64,
            forall|j: int|
                0 <= j < i ==> #[trigger] arr@[j] == (old(arr)@[j] << 16u32) | old(arr)@[64 + j],
            forall|j: int| i <= j < 128 ==> #[trigger] arr@[j] == old(arr)@[j],
        decreases 64 - i,
    {
        arr[i] = (arr[i] << 16u32) | arr[64 + i];
        i = i + 1;
    }
}

/// Spreads the 16-bit lanes of the first 64 words back over both halves.
#[verifier::spinoff_prover]
pub(crate) fn expand16(arr: &mut [u32; BLOCK_SIZE])
    ensures
        forall|i: int|
            0 <= i < 64 ==> {
                &&& #[trigger] final(arr)@[i] == (old(arr)@[i] >> 16u32) & 0xffff
                &&& final(arr)@[64 + i] == old(arr)@[i] & 0xffff
            },
{
    let mut i: usize = 0;
    while i < 64
        invariant
            i <= 64,
            forall|j: int|
                0 <= j < i ==> {
                    &&& #[trigger] arr@[j] == (old(arr)@[j] >> 16u32) & 0xffff
                    &&& arr@[64 + j] == old(arr)@[j] & 0xffff
                },
            forall|j: int| i <= j < 64 ==> #[trigger] arr@[j] == old(arr)@[j],
        decreases 64 - i,
    {
        let ghost prev = arr@;
        let l = arr[i];
        arr[i] = (l >> 16u32) & 0xffff;
        arr[64 + i] = l & 0xffff;
        proof {
            assert forall|j: int| 0 <= j < i + 1 implies {
                &&& #[trigger] arr@[j] == (old(arr)@[j] >> 16u32) & 0xffff
                &&& arr@[64 + j] == old(arr)@[j] & 0xffff
            } by {
                if j < i {
                    assert(prev[j] == (old(arr)@[j] >> 16u32) & 0xffff);
                }
            }
        }
        i = i + 1;
    }
}

/// Encode 128 integers at `bpv` bits each; `ints` is copied, not clobbered.
/// At 32 bits a block is the 128 ints little-endian.
pub fn encode(ints: &[u32; BLOCK_SIZE], bpv: u32, out: &mut Vec<u8>)
    requires
        1 <= bpv <= 32,
    ensures
        final(out)@.len() == old(out)@.len() + 16 * bpv,
        final(out)@.subrange(0, old(out)@.len() as int) == old(out)@,
        bpv == 32 ==> final(out)@ == old(out)@ + words_le(ints@),
        bpv == 16 ==> final(out)@ == old(out)@ + words_le(halves16(ints@)),
        bpv == 8 ==> final(out)@ == old(out)@ + words_le(lanes8(ints@)),
        bpv == 1 || bpv == 2 || bpv == 4 ==> final(out)@ == old(out)@ + words_le(
            narrow_words(ints@, bpv),
        ),
        final(out)@ == old(out)@ + for_bytes(ints@, bpv),
{
    let mut collapsed = *ints;
    let primitive: u32 = if bpv <= 8 {
        collapse8(&mut collapsed);
        assert(collapsed@.subrange(0, 32) =~= lanes8(ints@));
        proof {
            if bpv == 1 || bpv == 2 || bpv == 4 {
                assert(8u32 % bpv == 0) by (nonlinear_arith)
                    requires
                        bpv == 1 || bpv == 2 || bpv == 4,
                ;
                assert forall|t: int| 0 <= t < 4 * bpv implies #[trigger] band_or(
                    collapsed@,
                    bpv,
                    8,
                    t,
                    (8u32 / bpv) as nat,
                ) == band_or(lanes8(ints@), bpv, 8, t, (8u32 / bpv) as nat) by {
                    lemma_band_or_agree(collapsed@, lanes8(ints@), bpv, 8, t, (8u32 / bpv) as nat);
                }
                assert(Seq::new((4 * bpv) as nat, |t: int| band_or(collapsed@, bpv, 8, t, (8u32 / bpv) as nat))
                    =~= narrow_words(ints@, bpv));
            }
        }
        8
    } else if bpv <= 16 {
        collapse16(&mut collapsed);
        assert(collapsed@.subrange(0, 64) =~= halves16(ints@));
        16
    } else {
        32
    };
    assert(collapsed@ =~= collapsed_lanes(ints@, for_primitive(bpv)));
    encode_with_primitive(&collapsed, bpv, primitive, out);
}

/// The lane width `encode` packs at: bytes up to 8 bits, halves up to 16,
/// whole words above.
pub open spec fn for_primitive(bpv: u32) -> u32 {
    if bpv <= 8 {
        8
    } else if bpv <= 16 {
        16
    } else {
        32
    }
}

/// The block with its values gathered into lanes of `p` bits: the first
/// words hold the lanes (see [`lanes8`], [`halves16`]), the rest is as it
/// was.
pub open spec fn collapsed_lanes(ints: Seq<u32>, p: u32) -> Seq<u32> {
    if p == 8 {
        Seq::new(
            BLOCK_SIZE as nat,
            |i: int|
                if i < 32 {
                    lanes8(ints)[i]
                } else {
                    ints[i]
                },
        )
    } else if p == 16 {
        Seq::new(
            BLOCK_SIZE as nat,
            |i: int|
                if i < 64 {
                    halves16(ints)[i]
                } else {
                    ints[i]
                },
        )
    } else {
        ints
    }
}

/// The bytes `encode` appends for a block at `bpv` bits.
pub open spec fn for_bytes(ints: Seq<u32>, bpv: u32) -> Seq<u8> {
    words_le(packed_block(collapsed_lanes(ints, for_primitive(bpv)), bpv, for_primitive(bpv)))
}

/// The words of a block at 1, 2 or 4 bits: the byte lanes of the block
/// (see [`lanes8`]) packed `8 / bpv` to a lane, the first highest.
pub open spec fn narrow_words(ints: Seq<u32>, bpv: u32) -> Seq<u32> {
    Seq::new((4 * bpv) as nat, |t: int| band_or(lanes8(ints), bpv, 8, t, (8u32 / bpv) as nat))
}

/// Band words read only the values their bands take.
proof fn lemma_band_or_agree(a: Seq<u32>, b: Seq<u32>, bpv: u32, p: u32, t: int, n: nat)
    requires
        forall|i: int| 0 <= i < 4 * bpv * n && i % (4 * bpv) == t ==> #[trigger] a[i] == b[i],
        0 <= t < 4 * bpv,
        n >= 1,
    ensures
        band_or(a, bpv, p, t, n) == band_or(b, bpv, p, t, n),
    decreases n,
{
    if n > 1 {
        assert(4 * bpv * (n - 1) <= 4 * bpv * n) by (nonlinear_arith)
            requires
                n > 1,
                bpv >= 0,
        ;
        lemma_band_or_agree(a, b, bpv, p, t, (n - 1) as nat);
        let i = 4 * bpv * (n - 1) + t;
        assert(i % (4 * bpv) == t && i < 4 * bpv * n) by (nonlinear_arith)
            requires
                i == 4 * bpv * (n - 1) + t,
                0 <= t < 4 * bpv,
                n > 1,
        ;
        assert(a[i] == b[i]);
    } else {
        vstd::arithmetic::div_mod::lemma_small_mod(t as nat, (4 * bpv) as nat);
        assert(4 * bpv <= 4 * bpv * n) by (nonlinear_arith)
            requires
                n >= 1,
                bpv >= 0,
        ;
        assert(a[t] == b[t]);
    }
}

/// The 32 words of a block at 8 bits: word `i` holds values `i`, `32 + i`,
/// `64 + i` and `96 + i` in its bytes, most significant first.
pub open spec fn lanes8(s: Seq<u32>) -> Seq<u32> {
    Seq::new(
        32,
        |i: int| (s[i] << 24u32) | (s[32 + i] << 16u32) | (s[64 + i] << 8u32) | s[96 + i],
    )
}

/// The 64 words of a block at 16 bits: word `i` holds values `i` and
/// `64 + i` in its halves, high first.
pub open spec fn halves16(s: Seq<u32>) -> Seq<u32> {
    Seq::new(64, |i: int| (s[i] << 16u32) | s[64 + i])
}

proof fn lemma_mul_succ(a: int, c: int)
    ensures
        (a + 1) * c == a * c + c,
{
    assert((a + 1) * c == a * c + c) by (nonlinear_arith);
}

/// Bits of a packed block accounted for: `done` values fully placed, the
/// current one with `left` bits still to place, `words` words filled with
/// `rest` bits each.
proof fn lemma_stitch_bounds(done: int, left: int, words: int, rest: int, bpv: int)
    requires
        1 <= rest < bpv,
        1 <= left <= bpv,
        0 <= done < 4 * rest,
        0 <= words,
        words * rest == done * bpv + bpv - left,
    ensures
        words < 4 * bpv,
        left < rest ==> done + 1 < 4 * rest,
{
    assert(words * rest < (done + 1) * bpv) by (nonlinear_arith)
        requires
            words * rest == done * bpv + bpv - left,
            left >= 1,
    ;
    assert((done + 1) * bpv <= 4 * rest * bpv) by (nonlinear_arith)
        requires
            done + 1 <= 4 * rest,
            bpv >= 1,
    ;
    assert(words < 4 * bpv) by (nonlinear_arith)
        requires
            words * rest < 4 * rest * bpv,
            rest >= 1,
    ;
    if left < rest {
        assert((done + 1) * bpv < (words + 1) * rest) by (nonlinear_arith)
            requires
                words * rest == done * bpv + bpv - left,
                left < rest,
        ;
        assert((words + 1) * rest <= 4 * bpv * rest) by (nonlinear_arith)
            requires
                words + 1 <= 4 * bpv,
                rest >= 1,
        ;
        assert(done + 1 < 4 * rest) by (nonlinear_arith)
            requires
                (done + 1) * bpv < 4 * bpv * rest,
                bpv >= 1,
        ;
    }
}

pub(crate) fn encode_with_primitive(
    ints: &[u32; BLOCK_SIZE],
    bpv: u32,
    primitive_size: u32,
    out: &mut Vec<u8>,
)
    requires
        primitive_size == 8 || primitive_size == 16 || primitive_size == 32,
        1 <= bpv <= primitive_size,
    ensures
        final(out)@.len() == old(out)@.len() + 16 * bpv,
        final(out)@.subrange(0, old(out)@.len() as int) == old(out)@,
        bpv == 32 ==> final(out)@ == old(out)@ + words_le(ints@),
        bpv == primitive_size ==> final(out)@ == old(out)@ + words_le(ints@.subrange(0, 4 * bpv)),
        final(out)@ == old(out)@ + words_le(packed_block(ints@, bpv, primitive_size)),
        primitive_size % bpv == 0 ==> final(out)@ == old(out)@ + words_le(
            Seq::new((4 * bpv) as nat, |t: int| band_or(ints@, bpv, primitive_size, t, (primitive_size / bpv) as nat)),
        ),
{
    let num_ints: usize = BLOCK_SIZE * primitive_size as usize / 32;
    let num_ints_per_shift: usize = bpv as usize * 4;
    let mut tmp: [u32; BLOCK_SIZE] = vstd::array::array_fill_for_copy_types(0u32);
    proof {
        broadcast use vstd::array::axiom_spec_array_fill_for_copy_type;

        assert(forall|j: int| 0 <= j < BLOCK_SIZE ==> #[trigger] tmp@[j] == 0);
    }
    let mut idx: usize = 0;
    let mut shift: i32 = primitive_size as i32 - bpv as i32;
    let mut i: usize = 0;
    while i < num_ints_per_shift
        invariant
            num_ints_per_shift == 4 * bpv,
            1 <= bpv <= primitive_size <= 32,
            i <= num_ints_per_shift,
            idx == i,
            shift == primitive_size - bpv,
            bpv == primitive_size ==> forall|j: int| 0 <= j < i ==> #[trigger] tmp@[j] == ints@[j],
            forall|j: int| 0 <= j < i ==> #[trigger] tmp@[j] == band_or(ints@, bpv, primitive_size, j, 1),
            forall|j: int| i <= j < BLOCK_SIZE ==> #[trigger] tmp@[j] == 0,
        decreases num_ints_per_shift - i,
    {
        tmp[i] = ints[idx] << (shift as u32);
        proof {
            if bpv == primitive_size {
                let v = ints@[idx as int];
                vstd::arithmetic::power2::lemma2_to64();
                vstd::bits::lemma_u32_shl_is_mul(v, 0u32);
            }
        }
        idx = idx + 1;
        i = i + 1;
    }
    shift = shift - bpv as i32;
    let ghost mut used: int = bpv as int;
    let ghost mut nb: nat = 1;
    while shift >= 0
        invariant
            used == nb * bpv,
            nb >= 1,
            forall|j: int| 0 <= j < 4 * bpv ==> #[trigger] tmp@[j] == band_or(ints@, bpv, primitive_size, j, nb),
            forall|j: int| 4 * bpv <= j < BLOCK_SIZE ==> #[trigger] tmp@[j] == 0,
            num_ints_per_shift == 4 * bpv,
            1 <= bpv <= primitive_size <= 32,
            num_ints == 4 * primitive_size,
            idx == 4 * used,
            bpv <= used,
            shift == primitive_size - used - bpv,
            used <= primitive_size,
            bpv == primitive_size ==> forall|j: int| 0 <= j < 4 * bpv ==> #[trigger] tmp@[j] == ints@[j],
        decreases primitive_size - used,
    {
        let mut i: usize = 0;
        while i < num_ints_per_shift
            invariant
                num_ints_per_shift == 4 * bpv,
                1 <= bpv <= primitive_size <= 32,
                i <= num_ints_per_shift,
                idx == 4 * used + i,
                0 <= shift <= 31,
                shift == primitive_size - used - bpv,
                used == nb * bpv,
                nb >= 1,
                forall|j: int| 0 <= j < i ==> #[trigger] tmp@[j] == band_or(ints@, bpv, primitive_size, j, nb + 1),
                forall|j: int| i <= j < 4 * bpv ==> #[trigger] tmp@[j] == band_or(ints@, bpv, primitive_size, j, nb),
                forall|j: int| 4 * bpv <= j < BLOCK_SIZE ==> #[trigger] tmp@[j] == 0,
            decreases num_ints_per_shift - i,
        {
            proof {
                assert(idx == 4 * bpv * nb + i) by (nonlinear_arith)
                    requires
                        idx == 4 * used + i,
                        used == nb * bpv,
                ;
                assert(primitive_size - (nb + 1) * bpv == shift) by (nonlinear_arith)
                    requires
                        shift == primitive_size - used - bpv,
                        used == nb * bpv,
                ;
            }
            tmp[i] = tmp[i] | (ints[idx] << (shift as u32));
            idx = idx + 1;
            i = i + 1;
        }
        shift = shift - bpv as i32;
        proof {
            lemma_mul_succ(nb as int, bpv as int);
            used = used + bpv;
            nb = nb + 1;
        }
    }
    proof {
        if primitive_size % bpv == 0 {
            let q = primitive_size / bpv;
            vstd::arithmetic::div_mod::lemma_fundamental_div_mod(primitive_size as int, bpv as int);
            assert(primitive_size == bpv * q);
            assert(nb == q) by (nonlinear_arith)
                requires
                    primitive_size == bpv * q,
                    used == nb * bpv,
                    used <= primitive_size,
                    primitive_size - used - bpv < 0,
                    bpv >= 1,
            ;
            assert(used == primitive_size) by (nonlinear_arith)
                requires
                    primitive_size == bpv * q,
                    used == nb * bpv,
                    nb == q,
            ;
        }
    }
    proof {
        vstd::arithmetic::div_mod::lemma_fundamental_div_mod_converse(
            primitive_size as int,
            bpv as int,
            nb as int,
            primitive_size - used,
        );
    }
    assert(nb == primitive_size / bpv);
    assert(idx == 4 * (primitive_size / bpv) * bpv) by (nonlinear_arith)
        requires
            idx == 4 * used,
            used == nb * bpv,
            nb == primitive_size / bpv,
    ;
    let ghost init = tmp@;
    assert(init =~= band_words(ints@, bpv, primitive_size));
    let remaining_bits_per_int: u32 = (shift + bpv as i32) as u32;
    let mask_remaining = mask_for(primitive_size, remaining_bits_per_int);
    let mut tmp_idx: usize = 0;
    let mut remaining_bits_per_value: u32 = bpv;
    let ghost idx0 = idx as int;
    assert(tmp_idx * remaining_bits_per_int == 0 && (idx - idx0) * bpv == 0) by (nonlinear_arith)
        requires
            tmp_idx == 0,
            idx == idx0,
    ;
    while idx < num_ints
        invariant
            num_ints_per_shift == 4 * bpv,
            1 <= bpv <= primitive_size <= 32,
            num_ints == 4 * primitive_size,
            idx0 == 4 * used,
            bpv <= used <= primitive_size,
            remaining_bits_per_int == primitive_size - used,
            remaining_bits_per_int < bpv,
            idx0 <= idx <= num_ints,
            1 <= remaining_bits_per_value <= bpv,
            tmp_idx <= 4 * bpv,
            tmp_idx * remaining_bits_per_int == (idx - idx0) * bpv + bpv - remaining_bits_per_value,
            bpv == primitive_size ==> idx == num_ints,
            bpv == primitive_size ==> forall|j: int| 0 <= j < 4 * bpv ==> #[trigger] tmp@[j] == ints@[j],
            primitive_size % bpv == 0 ==> idx == num_ints,
            primitive_size % bpv == 0 ==> nb == primitive_size / bpv,
            primitive_size % bpv == 0 ==> forall|j: int| 0 <= j < 4 * bpv ==> #[trigger] tmp@[j] == band_or(ints@, bpv, primitive_size, j, nb),
            mask_remaining == prim_mask(primitive_size, remaining_bits_per_int),
            primitive_size == 8 || primitive_size == 16 || primitive_size == 32,
            idx0 == 4 * (primitive_size / bpv) * bpv,
            remaining_bits_per_int == primitive_size - (primitive_size / bpv) * bpv,
            stitch_from(ints@, bpv, primitive_size, remaining_bits_per_int, tmp@, tmp_idx as int, remaining_bits_per_value, idx as int, (4 * bpv - tmp_idx) as nat)
                == stitch_from(ints@, bpv, primitive_size, remaining_bits_per_int, init, 0, bpv, idx0, (4 * bpv) as nat),
        decreases 4 * bpv - tmp_idx,
    {
        let ghost t0 = tmp_idx as int;
        let ghost e0 = idx - idx0;
        let ghost tmp0 = tmp@;
        let ghost rbv0 = remaining_bits_per_value;
        let ghost idx_0 = idx as int;
        proof {
            lemma_mul_succ(t0, remaining_bits_per_int as int);
            lemma_mul_succ(e0, bpv as int);
            lemma_stitch_bounds(
                idx - idx0,
                remaining_bits_per_value as int,
                tmp_idx as int,
                remaining_bits_per_int as int,
                bpv as int,
            );
        }
        if remaining_bits_per_value >= remaining_bits_per_int {
            remaining_bits_per_value = remaining_bits_per_value - remaining_bits_per_int;
            tmp[tmp_idx] = tmp[tmp_idx] | ((ints[idx] >> remaining_bits_per_value) & mask_remaining);
            assert(tmp@ == tmp0.update(t0, tmp0[t0] | ((ints@[idx_0] >> remaining_bits_per_value) & prim_mask(primitive_size, remaining_bits_per_int))));
            tmp_idx = tmp_idx + 1;
            if remaining_bits_per_value == 0 {
                idx = idx + 1;
                remaining_bits_per_value = bpv;
            }
        } else {
            let mask1 = mask_for(primitive_size, remaining_bits_per_value);
            let mask2 = mask_for(primitive_size, remaining_bits_per_int - remaining_bits_per_value);
            tmp[tmp_idx] = tmp[tmp_idx] | ((ints[idx] & mask1) << (remaining_bits_per_int
                - remaining_bits_per_value));
            idx = idx + 1;
            remaining_bits_per_value = remaining_bits_per_value + bpv - remaining_bits_per_int;
            tmp[tmp_idx] = tmp[tmp_idx] | ((ints[idx] >> remaining_bits_per_value) & mask2);
            assert(tmp@ == tmp0.update(t0, (tmp0[t0] | ((ints@[idx_0] & prim_mask(primitive_size, rbv0)) << ((remaining_bits_per_int - rbv0) as u32)))
                | ((ints@[idx_0 + 1] >> remaining_bits_per_value) & prim_mask(primitive_size, (remaining_bits_per_int - rbv0) as u32))));
            tmp_idx = tmp_idx + 1;
        }
        proof {
            assert(idx_0 < 4 * primitive_size);
            assert((4 * bpv - t0) as nat > 0);
            assert(t0 < 4 * bpv);
            assert(stitch_from(ints@, bpv, primitive_size, remaining_bits_per_int, tmp0, t0, rbv0, idx_0, (4 * bpv - t0) as nat)
                == stitch_from(ints@, bpv, primitive_size, remaining_bits_per_int, tmp@, tmp_idx as int, remaining_bits_per_value, idx as int, (4 * bpv - tmp_idx) as nat));
        }
    }
    assert(tmp@ == stitch_from(ints@, bpv, primitive_size, remaining_bits_per_int, init, 0, bpv, idx0, (4 * bpv) as nat));
    let ghost start = out@;
    let mut i: usize = 0;
    while i < num_ints_per_shift
        invariant
            num_ints_per_shift == 4 * bpv,
            1 <= bpv <= 32,
            i <= num_ints_per_shift,
            start == old(out)@,
            out@ == start + words_le(tmp@.subrange(0, i as int)),
            bpv == primitive_size ==> forall|j: int| 0 <= j < 4 * bpv ==> #[trigger] tmp@[j] == ints@[j],
            primitive_size % bpv == 0 ==> forall|j: int| 0 <= j < 4 * bpv ==> #[trigger] tmp@[j] == band_or(ints@, bpv, primitive_size, j, (primitive_size / bpv) as nat),
        decreases num_ints_per_shift - i,
    {
        proof {
            assert(tmp@.subrange(0, i + 1).drop_last() =~= tmp@.subrange(0, i as int));
        }
        write_u32_le(out, tmp[i]);
        i = i + 1;
    }
    proof {
        crate::bytes::lemma_words_le(tmp@.subrange(0, num_ints_per_shift as int));
        assert(out@.subrange(0, start.len() as int) =~= start);
        if bpv == primitive_size {
            assert(tmp@.subrange(0, 4 * bpv) =~= ints@.subrange(0, 4 * bpv));
        }
        if bpv == 32 {
            assert(tmp@.subrange(0, 128) =~= ints@);
        }
        assert(tmp@.subrange(0, 4 * bpv) =~= packed_block(ints@, bpv, primitive_size));
        if primitive_size % bpv == 0 {
            assert(tmp@.subrange(0, 4 * bpv) =~= Seq::new((4 * bpv) as nat, |t: int| band_or(ints@, bpv, primitive_size, t, (primitive_size / bpv) as nat)));
        }
    }
}

/// A lane mask of `bits` low bits in each `p`-bit lane.
pub open spec fn prim_mask(p: u32, bits: u32) -> u32 {
    if p == 8 {
        lane_mask8(bits)
    } else if p == 16 {
        lane_mask16(bits)
    } else {
        low_mask(bits)
    }
}

/// The block's words once its shift bands are packed: the first `4 bpv`
/// words hold the bands, the rest are still zero.
pub open spec fn band_words(vals: Seq<u32>, bpv: u32, p: u32) -> Seq<u32> {
    Seq::new(
        BLOCK_SIZE as nat,
        |j: int|
            if j < 4 * bpv {
                band_or(vals, bpv, p, j, (p / bpv) as nat)
            } else {
                0
            },
    )
}

/// The values left over after the bands, packed into the `rest` low bits
/// of each lane of the words, most significant first: from word `t` on,
/// with `rbv` bits of value `idx` still to place.
pub open spec fn stitch_from(
    vals: Seq<u32>,
    bpv: u32,
    p: u32,
    rest: u32,
    tmp: Seq<u32>,
    t: int,
    rbv: u32,
    idx: int,
    fuel: nat,
) -> Seq<u32>
    decreases fuel,
{
    if fuel == 0 || idx >= 4 * p {
        tmp
    } else if rbv >= rest {
        let r2 = (rbv - rest) as u32;
        let tmp2 = tmp.update(t, tmp[t] | ((vals[idx] >> r2) & prim_mask(p, rest)));
        if r2 == 0 {
            stitch_from(vals, bpv, p, rest, tmp2, t + 1, bpv, idx + 1, (fuel - 1) as nat)
        } else {
            stitch_from(vals, bpv, p, rest, tmp2, t + 1, r2, idx, (fuel - 1) as nat)
        }
    } else {
        let a = tmp[t] | ((vals[idx] & prim_mask(p, rbv)) << ((rest - rbv) as u32));
        let r2 = (rbv + bpv - rest) as u32;
        let b = a | ((vals[idx + 1] >> r2) & prim_mask(p, (rest - rbv) as u32));
        stitch_from(vals, bpv, p, rest, tmp.update(t, b), t + 1, r2, idx + 1, (fuel - 1) as nat)
    }
}

/// Stitching only updates words: the block keeps its length.
pub proof fn lemma_stitch_len(
    vals: Seq<u32>,
    bpv: u32,
    p: u32,
    rest: u32,
    tmp: Seq<u32>,
    t: int,
    rbv: u32,
    idx: int,
    fuel: nat,
)
    requires
        0 <= t,
        t + fuel <= tmp.len(),
    ensures
        stitch_from(vals, bpv, p, rest, tmp, t, rbv, idx, fuel).len() == tmp.len(),
    decreases fuel,
{
    if !(fuel == 0 || idx >= 4 * p) {
        if rbv >= rest {
            let r2 = (rbv - rest) as u32;
            let tmp2 = tmp.update(t, tmp[t] | ((vals[idx] >> r2) & prim_mask(p, rest)));
            if r2 == 0 {
                lemma_stitch_len(vals, bpv, p, rest, tmp2, t + 1, bpv, idx + 1, (fuel - 1) as nat);
            } else {
                lemma_stitch_len(vals, bpv, p, rest, tmp2, t + 1, r2, idx, (fuel - 1) as nat);
            }
        } else {
            let a = tmp[t] | ((vals[idx] & prim_mask(p, rbv)) << ((rest - rbv) as u32));
            let r2 = (rbv + bpv - rest) as u32;
            let b = a | ((vals[idx + 1] >> r2) & prim_mask(p, (rest - rbv) as u32));
            lemma_stitch_len(vals, bpv, p, rest, tmp.update(t, b), t + 1, r2, idx + 1, (fuel - 1) as nat);
        }
    }
}

/// The `4 bpv` words a block of lane values packs into at `bpv` bits in
/// lanes of `p` bits: the shift bands, then the leftover values stitched
/// into the low bits.
pub open spec fn packed_block(vals: Seq<u32>, bpv: u32, p: u32) -> Seq<u32> {
    let nb = p / bpv;
    stitch_from(
        vals,
        bpv,
        p,
        (p - nb * bpv) as u32,
        band_words(vals, bpv, p),
        0,
        bpv,
        4 * nb * bpv,
        (4 * bpv) as nat,
    ).subrange(0, 4 * bpv)
}

/// Word `t` of a block packed at `bpv` bits in lanes of `p` bits, after its
/// first `n` shift bands: band `s` puts value `4 bpv s + t` `(s + 1) bpv`
/// bits below the top of each lane.
pub open spec fn band_or(vals: Seq<u32>, bpv: u32, p: u32, t: int, n: nat) -> u32
    decreases n,
{
    if n <= 1 {
        vals[t] << ((p - bpv) as u32)
    } else {
        band_or(vals, bpv, p, t, (n - 1) as nat) | (vals[4 * bpv * (n - 1) + t] << ((p - n * bpv) as u32))
    }
}


/// Word `k` as a split block holds it: the masked remainder at `c_index`,
/// the shift bands elsewhere.
pub open spec fn split_word(
    raw: Seq<u32>,
    count: int,
    b_shift: u32,
    dec: u32,
    b_mask: u32,
    c_index: int,
    c_mask: u32,
    k: int,
) -> u32 {
    if c_index <= k < c_index + count {
        raw[k - c_index] & c_mask
    } else {
        band(raw, count, b_shift, dec, b_mask, k)
    }
}

/// Word `k` of the block `decode` fills at width `bpv` before it spreads
/// the lanes (above 16 bits: the banded words at the front, then the
/// values stitched from the leftover bits).
pub open spec fn packed_word(bpv: u32, buf: Seq<u8>, k: int) -> u32 {
    if bpv == 1 {
        split_word(raw_words(buf, 0, 4), 4, 7, 1, MASK8_1, 28, MASK8_1, k)
    } else if bpv == 2 {
        split_word(raw_words(buf, 0, 8), 8, 6, 2, MASK8_2, 24, MASK8_2, k)
    } else if bpv == 3 {
        if k < 24 {
            band(raw_words(buf, 0, 12), 12, 5, 3, MASK8_3, k)
        } else {
            decode3_tail(raw_words(buf, 0, 12), (k - 24) / 2, (k - 24) % 2)
        }
    } else if bpv == 4 {
        split_word(raw_words(buf, 0, 16), 16, 4, 4, MASK8_4, 16, MASK8_4, k)
    } else if bpv == 5 {
        if k < 20 {
            band(raw_words(buf, 0, 20), 20, 3, 5, MASK8_5, k)
        } else {
            decode5_tail(raw_words(buf, 0, 20), (k - 20) / 3, (k - 20) % 3)
        }
    } else if bpv == 6 {
        if k < 24 {
            band(raw_words(buf, 0, 24), 24, 2, 6, MASK8_6, k)
        } else {
            decode6_tail(raw_words(buf, 0, 24), k - 24, 0)
        }
    } else if bpv == 7 {
        if k < 28 {
            band(raw_words(buf, 0, 28), 28, 1, 7, MASK8_7, k)
        } else {
            decode7_tail(raw_words(buf, 0, 28), k - 28, 0)
        }
    } else if bpv == 8 {
        raw_words(buf, 0, 32)[k]
    } else if bpv == 9 {
        if k < 36 {
            band(raw_words(buf, 0, 36), 36, 7, 9, MASK16_9, k)
        } else {
            decode9_tail(raw_words(buf, 0, 36), (k - 36) / 7, (k - 36) % 7)
        }
    } else if bpv == 10 {
        if k < 40 {
            band(raw_words(buf, 0, 40), 40, 6, 10, MASK16_10, k)
        } else {
            decode10_tail(raw_words(buf, 0, 40), (k - 40) / 3, (k - 40) % 3)
        }
    } else if bpv == 11 {
        if k < 44 {
            band(raw_words(buf, 0, 44), 44, 5, 11, MASK16_11, k)
        } else {
            decode11_tail(raw_words(buf, 0, 44), (k - 44) / 5, (k - 44) % 5)
        }
    } else if bpv == 12 {
        if k < 48 {
            band(raw_words(buf, 0, 48), 48, 4, 12, MASK16_12, k)
        } else {
            decode12_tail(raw_words(buf, 0, 48), k - 48, 0)
        }
    } else if bpv == 13 {
        if k < 52 {
            band(raw_words(buf, 0, 52), 52, 3, 13, MASK16_13, k)
        } else {
            decode13_tail(raw_words(buf, 0, 52), (k - 52) / 3, (k - 52) % 3)
        }
    } else if bpv == 14 {
        if k < 56 {
            band(raw_words(buf, 0, 56), 56, 2, 14, MASK16_14, k)
        } else {
            decode14_tail(raw_words(buf, 0, 56), k - 56, 0)
        }
    } else if bpv == 15 {
        if k < 60 {
            band(raw_words(buf, 0, 60), 60, 1, 15, MASK16_15, k)
        } else {
            decode15_tail(raw_words(buf, 0, 60), k - 60, 0)
        }
    } else if bpv == 16 {
        raw_words(buf, 0, 64)[k]
    } else if k < 4 * bpv {
        band(raw_words(buf, 0, 4 * bpv), 4 * bpv, (32 - bpv) as u32, 32, low_mask(bpv), k)
    } else {
        stitched(raw_words(buf, 0, 4 * bpv), bpv, k - 4 * bpv)
    }
}

/// Value `k` that `decode` gives at width `bpv`: a byte lane of the packed
/// words up to 8 bits, a half-word lane up to 16, the word itself above.
pub open spec fn unpacked_value(bpv: u32, buf: Seq<u8>, k: int) -> u32 {
    if bpv <= 8 {
        let w = packed_word(bpv, buf, k % 32);
        if k < 32 {
            (w >> 24u32) & 0xff
        } else if k < 64 {
            (w >> 16u32) & 0xff
        } else if k < 96 {
            (w >> 8u32) & 0xff
        } else {
            w & 0xff
        }
    } else if bpv <= 16 {
        let w = packed_word(bpv, buf, k % 64);
        if k < 64 {
            (w >> 16u32) & 0xffff
        } else {
            w & 0xffff
        }
    } else {
        packed_word(bpv, buf, k)
    }
}

/// Spreading byte lanes of packed words gives the unpacked values.
proof fn lemma_spread8(mid: Seq<u32>, fin: Seq<u32>, bpv: u32, buf: Seq<u8>)
    requires
        bpv <= 8,
        forall|i: int|
            0 <= i < 32 ==> {
                &&& #[trigger] fin[i] == (mid[i] >> 24u32) & 0xff
                &&& fin[32 + i] == (mid[i] >> 16u32) & 0xff
                &&& fin[64 + i] == (mid[i] >> 8u32) & 0xff
                &&& fin[96 + i] == mid[i] & 0xff
            },
        forall|i: int| 0 <= i < 32 ==> #[trigger] mid[i] == packed_word(bpv, buf, i),
    ensures
        forall|k: int| 0 <= k < 128 ==> #[trigger] fin[k] == unpacked_value(bpv, buf, k),
{
    assert forall|k: int| 0 <= k < 128 implies #[trigger] fin[k] == unpacked_value(bpv, buf, k) by {
        let i = k % 32;
        assert(mid[i] == packed_word(bpv, buf, i));
        assert(fin[i] == (mid[i] >> 24u32) & 0xff);
    }
}

/// Spreading half-word lanes of packed words gives the unpacked values.
#[verifier::spinoff_prover]
#[verifier::rlimit(40)]
proof fn lemma_spread16(mid: Seq<u32>, fin: Seq<u32>, bpv: u32, buf: Seq<u8>)
    requires
        9 <= bpv <= 16,
        forall|i: int|
            0 <= i < 64 ==> {
                &&& #[trigger] fin[i] == (mid[i] >> 16u32) & 0xffff
                &&& fin[64 + i] == mid[i] & 0xffff
            },
        forall|i: int| 0 <= i < 64 ==> #[trigger] mid[i] == packed_word(bpv, buf, i),
    ensures
        forall|k: int| 0 <= k < 128 ==> #[trigger] fin[k] == unpacked_value(bpv, buf, k),
{
    assert forall|k: int| 0 <= k < 128 implies #[trigger] fin[k] == unpacked_value(bpv, buf, k) by {
        let i = k % 64;
        assert(mid[i] == packed_word(bpv, buf, i));
        assert(fin[i] == (mid[i] >> 16u32) & 0xffff);
    }
}

/// Word reads from the start stay inside a buffer of at least `4 c` bytes:
/// the `i`th ends at `4 i`.
proof fn lemma_words_pos_inside(len: int, i: nat)
    requires
        4 * i <= len,
    ensures
        words_pos(len, 0, i) == 4 * i,
    decreases i,
{
    if i > 0 {
        lemma_words_pos_inside(len, (i - 1) as nat);
    }
}

/// The first `c` words read from the start do not see bytes past `4 c`.
proof fn lemma_raw_words_prefix(a: Seq<u8>, e: Seq<u8>, c: int)
    requires
        0 <= c <= BLOCK_SIZE,
        4 * c <= a.len(),
    ensures
        raw_words(a + e, 0, c) == raw_words(a, 0, c),
{
    assert forall|i: int| 0 <= i < BLOCK_SIZE implies #[trigger] raw_words(a + e, 0, c)[i] == raw_words(
        a,
        0,
        c,
    )[i] by {
        if i < c {
            lemma_words_pos_inside(a.len() as int, i as nat);
            lemma_words_pos_inside((a + e).len() as int, i as nat);
            assert((a + e)[4 * i] == a[4 * i]);
            assert((a + e)[4 * i + 1] == a[4 * i + 1]);
            assert((a + e)[4 * i + 2] == a[4 * i + 2]);
            assert((a + e)[4 * i + 3] == a[4 * i + 3]);
        }
    }
    assert(raw_words(a + e, 0, c) =~= raw_words(a, 0, c));
}

/// `decode` reads only the `16 bpv` bytes of the block: bytes after them
/// change none of the values it states. At width 32 the values are the
/// block's little-endian words.
pub proof fn lemma_decode_ignores_extra(bpv: u32, a: Seq<u8>, e: Seq<u8>, k: int)
    requires
        1 <= bpv <= 32,
        16 * bpv <= a.len(),
        0 <= k < BLOCK_SIZE,
    ensures
        unpacked_value(bpv, a + e, k) == unpacked_value(bpv, a, k),
        bpv == 32 ==> unpacked_value(bpv, a, k) == u32_at(a, 4 * k),
{
    lemma_raw_words_prefix(a, e, 4 * bpv);
    if bpv == 32 {
        lemma_words_pos_inside(a.len() as int, k as nat);
        let w = raw_words(a, 0, 128)[k];
        super::for_delta::lemma_bit_facts(w, 0);
        assert(k % 128 == k && k / 128 == 0);
        assert(low_mask(32) == 0xffff_ffff);
    }
}

/// At width 32, what `encode` writes (the block's little-endian words)
/// `decode` reads back as the block, whatever bytes follow it.
pub proof fn lemma_raw_round_trip(ints: Seq<u32>, post: Seq<u8>, k: int)
    requires
        ints.len() == BLOCK_SIZE,
        0 <= k < BLOCK_SIZE,
    ensures
        unpacked_value(32, words_le(ints) + post, k) == ints[k],
{
    let a = words_le(ints);
    lemma_words_le(ints);
    lemma_decode_ignores_extra(32, a, post, k);
    lemma_u32_roundtrip(ints[k], a, 4 * k);
}

/// Bytes and halves packed into a word read back through the lane masks.
proof fn lemma_lanes(a: u32, b: u32, c: u32, d: u32, x: u32, y: u32)
    by (bit_vector)
    requires
        a < 0x100,
        b < 0x100,
        c < 0x100,
        d < 0x100,
        x < 0x10000,
        y < 0x10000,
    ensures
        ((((a << 24u32) | (b << 16u32) | (c << 8u32) | d) >> 24u32) & 0xff) == a,
        ((((a << 24u32) | (b << 16u32) | (c << 8u32) | d) >> 16u32) & 0xff) == b,
        ((((a << 24u32) | (b << 16u32) | (c << 8u32) | d) >> 8u32) & 0xff) == c,
        (((a << 24u32) | (b << 16u32) | (c << 8u32) | d) & 0xff) == d,
        ((((x << 16u32) | y) >> 16u32) & 0xffff) == x,
        (((x << 16u32) | y) & 0xffff) == y,
{
}

/// Bit facts of the packed formats. Narrow lanes: bytes below 16, 4 or 2
/// packed four to a word stay inside their nibble, crumb or bit, and shift
/// bands of such words read back through the lane masks. Patching: a token
/// holds its exception count and width apart, and a value is its bits below
/// `w` joined with the byte above them.
pub(crate) proof fn lemma_packing_bits(
    a: u32,
    b: u32,
    c: u32,
    d: u32,
    x0: u32,
    x1: u32,
    x2: u32,
    x3: u32,
    x4: u32,
    x5: u32,
    x6: u32,
    x7: u32,
    n8: u8,
    w8: u8,
    v: u32,
    w: u32,
    mu: u32,
    mx: u32,
    mb: u32,
)
    by (bit_vector)
    ensures
        (n8 <= 7 && w8 <= 31) ==> ((n8 << 5u8) | w8) & 0x1f == w8 && ((n8 << 5u8) | w8) >> 5u8 == n8,
        (n8 <= 7 && w8 < 31) ==> ((n8 << 5u8) | w8) != 0xff,
        n8 <= 7 ==> (n8 << 5u8) & 0x1f == 0 && (n8 << 5u8) != 0xff,
        w < 32 ==> 1u32 << w >= 1,
        (1 <= w < 32 && mu == ((1u32 << w) - 1) as u32) ==> (v & mu) <= mu,
        (1 <= w < 32 && mu == ((1u32 << w) - 1) as u32 && v >> w < 256) ==> ((v & mu) | ((((v >> w)
            as u8) as u32) << w)) == v,
        (1 <= w < 32 && mb <= 32 && (mb < 32 ==> mx >> mb == 0) && v <= mx && w + 8 >= mb) ==> v >> w
            < 256,
        (1 <= w < 32 && mu == ((1u32 << w) - 1) as u32 && v <= mu) ==> v >> w == 0,
        (a < 16 && b < 16 && c < 16 && d < 16) ==> ((a << 24u32) | (b << 16u32) | (c << 8u32) | d)
            & 0xf0f0f0f0 == 0,
        (a < 4 && b < 4 && c < 4 && d < 4) ==> ((a << 24u32) | (b << 16u32) | (c << 8u32) | d)
            & 0xfcfcfcfc == 0,
        (a < 2 && b < 2 && c < 2 && d < 2) ==> ((a << 24u32) | (b << 16u32) | (c << 8u32) | d)
            & 0xfefefefe == 0,
        (x0 & 0xf0f0f0f0 == 0 && x1 & 0xf0f0f0f0 == 0) ==> {
            &&& (((x0 << 4u32) | (x1 << 0u32)) >> 4u32) & 0x0f0f0f0f == x0
            &&& ((x0 << 4u32) | (x1 << 0u32)) & 0x0f0f0f0f == x1
        },
        (x0 & 0xfcfcfcfc == 0 && x1 & 0xfcfcfcfc == 0 && x2 & 0xfcfcfcfc == 0 && x3 & 0xfcfcfcfc
            == 0) ==> {
            &&& ((((x0 << 6u32) | (x1 << 4u32)) | (x2 << 2u32)) | (x3 << 0u32)) >> 6u32 & 0x03030303
                == x0
            &&& ((((x0 << 6u32) | (x1 << 4u32)) | (x2 << 2u32)) | (x3 << 0u32)) >> 4u32 & 0x03030303
                == x1
            &&& ((((x0 << 6u32) | (x1 << 4u32)) | (x2 << 2u32)) | (x3 << 0u32)) >> 2u32 & 0x03030303
                == x2
            &&& ((((x0 << 6u32) | (x1 << 4u32)) | (x2 << 2u32)) | (x3 << 0u32)) & 0x03030303 == x3
        },
        (x0 & 0xfefefefe == 0 && x1 & 0xfefefefe == 0 && x2 & 0xfefefefe == 0 && x3 & 0xfefefefe
            == 0 && x4 & 0xfefefefe == 0 && x5 & 0xfefefefe == 0 && x6 & 0xfefefefe == 0 && x7
            & 0xfefefefe == 0) ==> {
            let w = (((((((x0 << 7u32) | (x1 << 6u32)) | (x2 << 5u32)) | (x3 << 4u32)) | (x4 << 3u32))
                | (x5 << 2u32)) | (x6 << 1u32)) | (x7 << 0u32);
            &&& (w >> 7u32) & 0x01010101 == x0
            &&& (w >> 6u32) & 0x01010101 == x1
            &&& (w >> 5u32) & 0x01010101 == x2
            &&& (w >> 4u32) & 0x01010101 == x3
            &&& (w >> 3u32) & 0x01010101 == x4
            &&& (w >> 2u32) & 0x01010101 == x5
            &&& (w >> 1u32) & 0x01010101 == x6
            &&& w & 0x01010101 == x7
        },
{
}

/// Word `i` read from the start of some words written little-endian is
/// word `i`, whatever follows them.
proof fn lemma_raw_words_of(x: Seq<u32>, post: Seq<u8>, i: int)
    requires
        0 <= i < x.len() <= BLOCK_SIZE,
    ensures
        raw_words(words_le(x) + post, 0, x.len() as int)[i] == x[i],
{
    let a = words_le(x);
    lemma_words_le(x);
    lemma_raw_words_prefix(a, post, x.len() as int);
    lemma_words_pos_inside(a.len() as int, i as nat);
    lemma_u32_roundtrip(x[i], a, 4 * i);
}

/// The bytes `encode` writes at 8, 16 or 32 bits: the collapsed lanes or
/// the ints, as little-endian words.
pub open spec fn whole_lane_bytes(bpv: u32, ints: Seq<u32>) -> Seq<u8> {
    if bpv == 8 {
        words_le(lanes8(ints))
    } else if bpv == 16 {
        words_le(halves16(ints))
    } else {
        words_le(ints)
    }
}

/// At 8, 16 and 32 bits, what `encode` writes `decode` reads back as the
/// block, whatever bytes follow it.
pub proof fn lemma_whole_lane_round_trip(bpv: u32, ints: Seq<u32>, post: Seq<u8>, k: int)
    requires
        bpv == 8 || bpv == 16 || bpv == 32,
        ints.len() == BLOCK_SIZE,
        bpv == 8 ==> forall|i: int| 0 <= i < BLOCK_SIZE ==> #[trigger] ints[i] < 0x100,
        bpv == 16 ==> forall|i: int| 0 <= i < BLOCK_SIZE ==> #[trigger] ints[i] < 0x10000,
        0 <= k < BLOCK_SIZE,
    ensures
        unpacked_value(bpv, whole_lane_bytes(bpv, ints) + post, k) == ints[k],
{
    if bpv == 8 {
        let i = k % 32;
        let l = lanes8(ints);
        lemma_raw_words_of(l, post, i);
        lemma_lanes(ints[i], ints[32 + i], ints[64 + i], ints[96 + i], 0, 0);
        assert(k < 32 ==> k == i);
        assert(32 <= k < 64 ==> k == 32 + i);
        assert(64 <= k < 96 ==> k == 64 + i);
        assert(96 <= k ==> k == 96 + i);
    } else if bpv == 16 {
        let i = k % 64;
        let h = halves16(ints);
        lemma_raw_words_of(h, post, i);
        lemma_lanes(0, 0, 0, 0, ints[i], ints[64 + i]);
        assert(k < 64 ==> k == i);
        assert(64 <= k ==> k == 64 + i);
    } else {
        lemma_raw_round_trip(ints, post, k);
    }
}

/// The packed words of a block at 1, 2 or 4 bits are its byte lanes, when
/// every value fits.
#[verifier::spinoff_prover]
#[verifier::rlimit(50)]
proof fn lemma_narrow_packed(bpv: u32, ints: Seq<u32>, post: Seq<u8>, m: int)
    requires
        bpv == 1 || bpv == 2 || bpv == 4,
        ints.len() == BLOCK_SIZE,
        forall|j: int| 0 <= j < 32 ==> #[trigger] lanes8(ints)[j] & (if bpv == 4 {
            0xf0f0f0f0u32
        } else if bpv == 2 {
            0xfcfcfcfcu32
        } else {
            0xfefefefeu32
        }) == 0,
        0 <= m < 32,
    ensures
        packed_word(bpv, words_le(narrow_words(ints, bpv)) + post, m) == lanes8(ints)[m],
{
    let l = lanes8(ints);
    let w = narrow_words(ints, bpv);
    let buf = words_le(w) + post;
    assert forall|j: int| 0 <= j < 4 * bpv implies #[trigger] raw_words(buf, 0, 4 * bpv)[j] == w[j] by {
        lemma_raw_words_of(w, post, j);
    }
    let raw = raw_words(buf, 0, 4 * bpv);
    if bpv == 4 {
        let t = m % 16;
        lemma_packing_bits(0, 0, 0, 0, l[t], l[16 + t], 0, 0, 0, 0, 0, 0, 0, 0, 0, 0, 0, 0, 0);
        assert(band_or(l, 4, 8, t, 1) == l[t] << 4u32);
        assert((8u32 / bpv) as nat == 2) by (nonlinear_arith)
            requires
                bpv == 4,
        ;
        assert(w[t] == band_or(l, 4, 8, t, 2));
        assert(w[t] == (l[t] << 4u32) | (l[16 + t] << 0u32));
        if m < 16 {
            assert(packed_word(bpv, buf, m) == (raw[m] >> 4u32) & MASK8_4);
        } else {
            assert(packed_word(bpv, buf, m) == raw[m - 16] & MASK8_4);
        }
    } else if bpv == 2 {
        let t = m % 8;
        lemma_packing_bits(0, 0, 0, 0, l[t], l[8 + t], l[16 + t], l[24 + t], 0, 0, 0, 0, 0, 0, 0, 0, 0, 0, 0);
        assert(band_or(l, 2, 8, t, 1) == l[t] << 6u32);
        assert(band_or(l, 2, 8, t, 2) == (l[t] << 6u32) | (l[8 + t] << 4u32));
        assert(band_or(l, 2, 8, t, 3) == ((l[t] << 6u32) | (l[8 + t] << 4u32)) | (l[16 + t] << 2u32));
        assert((8u32 / bpv) as nat == 4) by (nonlinear_arith)
            requires
                bpv == 2,
        ;
        assert(w[t] == band_or(l, 2, 8, t, 4));
        assert(w[t] == (((l[t] << 6u32) | (l[8 + t] << 4u32)) | (l[16 + t] << 2u32)) | (l[24 + t]
            << 0u32));
        assert(m == 8 * (m / 8) + t);
        if m < 24 {
            assert(packed_word(bpv, buf, m) == shr_spec(raw[t], 6 - (m / 8) * 2) & MASK8_2);
        } else {
            assert(packed_word(bpv, buf, m) == raw[m - 24] & MASK8_2);
        }
    } else {
        let t = m % 4;
        lemma_packing_bits(
            0,
            0,
            0,
            0,
            l[t],
            l[4 + t],
            l[8 + t],
            l[12 + t],
            l[16 + t],
            l[20 + t],
            l[24 + t],
            l[28 + t],
            0,
            0,
            0,
            0,
            0,
            0,
            0,
        );
        let b1 = l[t] << 7u32;
        let b2 = b1 | (l[4 + t] << 6u32);
        let b3 = b2 | (l[8 + t] << 5u32);
        let b4 = b3 | (l[12 + t] << 4u32);
        let b5 = b4 | (l[16 + t] << 3u32);
        let b6 = b5 | (l[20 + t] << 2u32);
        let b7 = b6 | (l[24 + t] << 1u32);
        let b8 = b7 | (l[28 + t] << 0u32);
        assert(band_or(l, 1, 8, t, 1) == b1);
        assert(band_or(l, 1, 8, t, 2) == b2);
        assert(band_or(l, 1, 8, t, 3) == b3);
        assert(band_or(l, 1, 8, t, 4) == b4);
        assert(band_or(l, 1, 8, t, 5) == b5);
        assert(band_or(l, 1, 8, t, 6) == b6);
        assert(band_or(l, 1, 8, t, 7) == b7);
        assert(band_or(l, 1, 8, t, 8) == b8);
        assert((8u32 / bpv) as nat == 8) by (nonlinear_arith)
            requires
                bpv == 1,
        ;
        assert(w[t] == band_or(l, 1, 8, t, 8));
        assert(w[t] == b8);
        assert(m == 4 * (m / 4) + t);
        if m < 28 {
            assert(packed_word(bpv, buf, m) == shr_spec(raw[t], 7 - (m / 4)) & MASK8_1);
        } else {
            assert(packed_word(bpv, buf, m) == raw[m - 28] & MASK8_1);
        }
    }
}

/// At 1, 2 and 4 bits, what `encode` writes `decode` reads back as the
/// block, whatever bytes follow it.
pub proof fn lemma_narrow_round_trip(bpv: u32, ints: Seq<u32>, post: Seq<u8>, k: int)
    requires
        bpv == 1 || bpv == 2 || bpv == 4,
        ints.len() == BLOCK_SIZE,
        forall|i: int|
            0 <= i < BLOCK_SIZE ==> (#[trigger] ints[i] as nat) < vstd::arithmetic::power2::pow2(
                bpv as nat,
            ),
        0 <= k < BLOCK_SIZE,
    ensures
        unpacked_value(bpv, words_le(narrow_words(ints, bpv)) + post, k) == ints[k],
{
    vstd::arithmetic::power2::lemma2_to64();
    let l = lanes8(ints);
    let buf = words_le(narrow_words(ints, bpv)) + post;
    let m = k % 32;
    assert forall|j: int| 0 <= j < 32 implies #[trigger] l[j] & (if bpv == 4 {
        0xf0f0f0f0u32
    } else if bpv == 2 {
        0xfcfcfcfcu32
    } else {
        0xfefefefeu32
    }) == 0 by {
        assert(ints[j] < 16 && ints[32 + j] < 16 && ints[64 + j] < 16 && ints[96 + j] < 16);
        lemma_packing_bits(ints[j], ints[32 + j], ints[64 + j], ints[96 + j], 0, 0, 0, 0, 0, 0, 0, 0, 0, 0, 0, 0, 0, 0, 0);
    }
    lemma_narrow_packed(bpv, ints, post, m);
    lemma_lanes(ints[m], ints[32 + m], ints[64 + m], ints[96 + m], 0, 0);
    assert(k < 32 ==> k == m);
    assert(32 <= k < 64 ==> k == 32 + m);
    assert(64 <= k < 96 ==> k == 64 + m);
    assert(96 <= k ==> k == 96 + m);
}

/// Bit facts of the 3-bit format: byte lanes below 8, the two shift bands
/// over the stitched low bits, and the stitched pairs read back.
proof fn lemma_width3_bits(a: u32, b: u32, c: u32, d: u32, x: u32, y: u32, p: u32, q: u32, z: u32, u: u32)
    by (bit_vector)
    ensures
        lane_mask8(1u32) == 0x01010101u32,
        lane_mask8(2u32) == 0x03030303u32,
        (a < 8 && b < 8 && c < 8 && d < 8) ==> ((a << 24u32) | (b << 16u32) | (c << 8u32) | d)
            & 0xf8f8f8f8 == 0,
        (x & 0xf8f8f8f8 == 0 && y & 0xf8f8f8f8 == 0 && p & 0xfcfcfcfc == 0) ==> {
            &&& ((((x << 5u32) | (y << 2u32)) | p) >> 5u32) & 0x07070707 == x
            &&& ((((x << 5u32) | (y << 2u32)) | p) >> 2u32) & 0x07070707 == y
            &&& (((x << 5u32) | (y << 2u32)) | p) & 0x03030303 == p
        },
        (x & 0xf8f8f8f8 == 0 && y & 0xf8f8f8f8 == 0 && p & 0xfcfcfcfc == 0 && q & 0xfcfcfcfc == 0) ==> {
            &&& (((((x << 5u32) | (y << 2u32)) | p) | q) >> 5u32) & 0x07070707 == x
            &&& (((((x << 5u32) | (y << 2u32)) | p) | q) >> 2u32) & 0x07070707 == y
            &&& ((((x << 5u32) | (y << 2u32)) | p) | q) & 0x03030303 == p | q
        },
        (z & 0xf8f8f8f8 == 0 && u & 0xf8f8f8f8 == 0) ==> {
            &&& ((z >> 1u32) & 0x03030303) & 0xfcfcfcfc == 0
            &&& ((z & 0x01010101) << 1u32) & 0xfcfcfcfc == 0
            &&& ((u >> 2u32) & 0x01010101) & 0xfcfcfcfc == 0
            &&& ((u >> 0u32) & 0x03030303) & 0xfcfcfcfc == 0
            &&& ((((z >> 1u32) & 0x03030303) << 1u32) | (((((z & 0x01010101) << 1u32) | ((u >> 2u32)
                & 0x01010101)) >> 1u32) & 0x01010101)) == z
            &&& ((((((z & 0x01010101) << 1u32) | ((u >> 2u32) & 0x01010101)) & 0x01010101) << 2u32) | ((u
                >> 0u32) & 0x03030303)) == u
        },
{
}

/// The 12 words of a 3-bit block of byte lanes `col`: two shift bands, and
/// in the low two bits of each lane the last eight lanes, three words per
/// pair.
pub open spec fn words3(col: Seq<u32>) -> Seq<u32> {
    Seq::new(
        12,
        |t: int|
            {
                let kk = t / 3;
                let band = (col[t] << 5u32) | (col[12 + t] << 2u32);
                if t % 3 == 0 {
                    band | ((col[24 + 2 * kk] >> 1u32) & prim_mask(8, 2))
                } else if t % 3 == 1 {
                    (band | ((col[24 + 2 * kk] & prim_mask(8, 1)) << 1u32)) | ((col[25 + 2 * kk] >> 2u32)
                        & prim_mask(8, 1))
                } else {
                    band | ((col[25 + 2 * kk] >> 0u32) & prim_mask(8, 2))
                }
            },
    )
}

/// One pair of stitched lanes at 3 bits: three words updated.
pub open spec fn stitch3_group(col: Seq<u32>, tmp: Seq<u32>, kk: int) -> Seq<u32> {
    let t = 3 * kk;
    tmp.update(t, tmp[t] | ((col[24 + 2 * kk] >> 1u32) & prim_mask(8, 2))).update(
        t + 1,
        (tmp[t + 1] | ((col[24 + 2 * kk] & prim_mask(8, 1)) << 1u32)) | ((col[25 + 2 * kk] >> 2u32)
            & prim_mask(8, 1)),
    ).update(t + 2, tmp[t + 2] | ((col[25 + 2 * kk] >> 0u32) & prim_mask(8, 2)))
}

proof fn lemma_stitch3_group(col: Seq<u32>, tmp: Seq<u32>, kk: int)
    requires
        0 <= kk < 4,
        tmp.len() == BLOCK_SIZE,
    ensures
        stitch_from(col, 3, 8, 2, tmp, 3 * kk, 3, 24 + 2 * kk, (12 - 3 * kk) as nat) == stitch_from(
            col,
            3,
            8,
            2,
            stitch3_group(col, tmp, kk),
            3 * kk + 3,
            3,
            26 + 2 * kk,
            (9 - 3 * kk) as nat,
        ),
{
    let t = 3 * kk;
    let s1 = tmp.update(t, tmp[t] | ((col[24 + 2 * kk] >> 1u32) & prim_mask(8, 2)));
    assert(stitch_from(col, 3, 8, 2, tmp, t, 3, 24 + 2 * kk, (12 - 3 * kk) as nat) == stitch_from(
        col,
        3,
        8,
        2,
        s1,
        t + 1,
        1,
        24 + 2 * kk,
        (11 - 3 * kk) as nat,
    ));
    let s2 = s1.update(
        t + 1,
        (s1[t + 1] | ((col[24 + 2 * kk] & prim_mask(8, 1)) << 1u32)) | ((col[25 + 2 * kk] >> 2u32)
            & prim_mask(8, 1)),
    );
    assert(stitch_from(col, 3, 8, 2, s1, t + 1, 1, 24 + 2 * kk, (11 - 3 * kk) as nat) == stitch_from(
        col,
        3,
        8,
        2,
        s2,
        t + 2,
        2,
        25 + 2 * kk,
        (10 - 3 * kk) as nat,
    ));
    let s3 = s2.update(t + 2, s2[t + 2] | ((col[25 + 2 * kk] >> 0u32) & prim_mask(8, 2)));
    assert(stitch_from(col, 3, 8, 2, s2, t + 2, 2, 25 + 2 * kk, (10 - 3 * kk) as nat) == stitch_from(
        col,
        3,
        8,
        2,
        s3,
        t + 3,
        3,
        26 + 2 * kk,
        (9 - 3 * kk) as nat,
    ));
    assert(s3 =~= stitch3_group(col, tmp, kk));
}

/// A 3-bit block packs into [`words3`].
proof fn lemma_packed3(col: Seq<u32>)
    requires
        col.len() == BLOCK_SIZE,
    ensures
        packed_block(col, 3, 8) == words3(col),
{
    assert(8u32 / 3u32 == 2) by (nonlinear_arith);
    let s0 = band_words(col, 3, 8);
    assert forall|t: int| 0 <= t < 12 implies #[trigger] s0[t] == (col[t] << 5u32) | (col[12 + t] << 2u32) by {
        assert(band_or(col, 3, 8, t, 1) == col[t] << 5u32);
    }
    let s1 = stitch3_group(col, s0, 0);
    let s2 = stitch3_group(col, s1, 1);
    let s3 = stitch3_group(col, s2, 2);
    let s4 = stitch3_group(col, s3, 3);
    lemma_stitch3_group(col, s0, 0);
    lemma_stitch3_group(col, s1, 1);
    lemma_stitch3_group(col, s2, 2);
    lemma_stitch3_group(col, s3, 3);
    assert(stitch_from(col, 3, 8, 2, s4, 12, 3, 32, 0) == s4);
    assert(packed_block(col, 3, 8) == s4.subrange(0, 12));
    assert forall|t: int| 0 <= t < 12 implies #[trigger] s4[t] == words3(col)[t] by {
        if t < 3 {
            assert(s4[t] == s1[t]);
        } else if t < 6 {
            assert(s4[t] == s2[t]);
            assert(s1[t] == s0[t]);
        } else if t < 9 {
            assert(s4[t] == s3[t]);
            assert(s2[t] == s0[t]);
        } else {
            assert(s3[t] == s0[t]);
        }
    }
    assert(s4.subrange(0, 12) =~= words3(col));
}

/// At 3 bits, what `encode` writes `decode` reads back as the block,
/// whatever bytes follow it, when every value is below 8.
#[verifier::spinoff_prover]
#[verifier::rlimit(80)]
proof fn lemma_width3_round_trip(ints: Seq<u32>, post: Seq<u8>, k: int)
    requires
        ints.len() == BLOCK_SIZE,
        forall|i: int| 0 <= i < BLOCK_SIZE ==> #[trigger] ints[i] < 8,
        0 <= k < BLOCK_SIZE,
    ensures
        unpacked_value(3, for_bytes(ints, 3) + post, k) == ints[k],
{
    let col = collapsed_lanes(ints, 8);
    lemma_packed3(col);
    let w = words3(col);
    let buf = words_le(w) + post;
    assert(for_bytes(ints, 3) == words_le(w));
    lemma_width3_bits(0, 0, 0, 0, 0, 0, 0, 0, 0, 0);
    assert forall|j: int| 0 <= j < 32 implies #[trigger] col[j] & 0xf8f8f8f8 == 0 by {
        lemma_width3_bits(ints[j], ints[32 + j], ints[64 + j], ints[96 + j], 0, 0, 0, 0, 0, 0);
    }
    assert forall|j: int| 0 <= j < 12 implies #[trigger] raw_words(buf, 0, 12)[j] == w[j] by {
        lemma_raw_words_of(w, post, j);
    }
    let raw = raw_words(buf, 0, 12);
    let m = k % 32;
    assert(packed_word(3, buf, m) == col[m]) by {
        if m < 24 {
            let t = m % 12;
            let kk = t / 3;
            let z = col[24 + 2 * kk];
            let u = col[25 + 2 * kk];
            lemma_width3_bits(0, 0, 0, 0, 0, 0, 0, 0, z, u);
            let band = (col[t] << 5u32) | (col[12 + t] << 2u32);
            if t % 3 == 0 {
                lemma_width3_bits(0, 0, 0, 0, col[t], col[12 + t], (z >> 1u32) & 0x03030303, 0, 0, 0);
            } else if t % 3 == 1 {
                lemma_width3_bits(
                    0,
                    0,
                    0,
                    0,
                    col[t],
                    col[12 + t],
                    (z & 0x01010101) << 1u32,
                    (u >> 2u32) & 0x01010101,
                    0,
                    0,
                );
            } else {
                lemma_width3_bits(0, 0, 0, 0, col[t], col[12 + t], (u >> 0u32) & 0x03030303, 0, 0, 0);
            }
            assert(raw[t] == w[t]);
            if m < 12 {
                assert(packed_word(3, buf, m) == shr_spec(raw[m], 5) & MASK8_3);
            } else {
                assert(packed_word(3, buf, m) == shr_spec(raw[t], 2) & MASK8_3);
            }
        } else {
            let kk = (m - 24) / 2;
            let z = col[24 + 2 * kk];
            let u = col[25 + 2 * kk];
            lemma_width3_bits(0, 0, 0, 0, 0, 0, 0, 0, z, u);
            let t = 3 * kk;
            assert(w[t] == ((col[t] << 5u32) | (col[12 + t] << 2u32)) | ((z >> 1u32) & 0x03030303));
            assert(w[t + 1] == (((col[t + 1] << 5u32) | (col[13 + t] << 2u32)) | ((z & 0x01010101)
                << 1u32)) | ((u >> 2u32) & 0x01010101));
            assert(w[t + 2] == ((col[t + 2] << 5u32) | (col[14 + t] << 2u32)) | ((u >> 0u32) & 0x03030303));
            lemma_width3_bits(0, 0, 0, 0, col[t], col[12 + t], (z >> 1u32) & 0x03030303, 0, 0, 0);
            lemma_width3_bits(
                0,
                0,
                0,
                0,
                col[t + 1],
                col[13 + t],
                (z & 0x01010101) << 1u32,
                (u >> 2u32) & 0x01010101,
                0,
                0,
            );
            lemma_width3_bits(0, 0, 0, 0, col[t + 2], col[14 + t], (u >> 0u32) & 0x03030303, 0, 0, 0);
            assert(raw[t] == w[t] && raw[t + 1] == w[t + 1] && raw[t + 2] == w[t + 2]);
            assert(packed_word(3, buf, m) == decode3_tail(raw, kk, (m - 24) % 2));
        }
    }
    lemma_lanes(ints[m], ints[32 + m], ints[64 + m], ints[96 + m], 0, 0);
    assert(k < 32 ==> k == m);
    assert(32 <= k < 64 ==> k == 32 + m);
    assert(64 <= k < 96 ==> k == 64 + m);
    assert(96 <= k ==> k == 96 + m);
}

/// Bit facts of the formats whose leftover bits are stitched (5, 6, 7,
/// 12, 14, 15, 24, 28, 30 and 31 bits): lanes below their width, one
/// shift band over the stitched low bits, the stitched values read back,
/// and a word rebuilt from its bytes.
proof fn lemma_stitched_lane_bits(a: u32, b: u32, c: u32, d: u32, x: u32, p: u32, q: u32)
    by (bit_vector)
    ensures
        low_mask(1u32) == 0x1u32,
        low_mask(31u32) == 0x7fffffffu32,
        ((a >> q) & 0x1) & 0xfffffffe == 0,
        (x < 0x80000000 && p & 0xfffffffe == 0) ==> {
            &&& (((x << 1u32) | p) >> 1u32) & 0x7fffffff == x
            &&& ((x << 1u32) | p) & 0x1 == p
        },
        a < 0x80000000 ==> (((((((((((((((((((((((((((((((((a >> 30u32) & 0x1) << 30u32) | (((a >> 29u32) & 0x1) << 29u32)) | (((a >> 28u32) & 0x1) << 28u32)) | (((a >> 27u32) & 0x1) << 27u32)) | (((a >> 26u32) & 0x1) << 26u32)) | (((a >> 25u32) & 0x1) << 25u32)) | (((a >> 24u32) & 0x1) << 24u32)) | (((a >> 23u32) & 0x1) << 23u32)) | (((a >> 22u32) & 0x1) << 22u32)) | (((a >> 21u32) & 0x1) << 21u32)) | (((a >> 20u32) & 0x1) << 20u32)) | (((a >> 19u32) & 0x1) << 19u32)) | (((a >> 18u32) & 0x1) << 18u32)) | (((a >> 17u32) & 0x1) << 17u32)) | (((a >> 16u32) & 0x1) << 16u32)) | (((a >> 15u32) & 0x1) << 15u32)) | (((a >> 14u32) & 0x1) << 14u32)) | (((a >> 13u32) & 0x1) << 13u32)) | (((a >> 12u32) & 0x1) << 12u32)) | (((a >> 11u32) & 0x1) << 11u32)) | (((a >> 10u32) & 0x1) << 10u32)) | (((a >> 9u32) & 0x1) << 9u32)) | (((a >> 8u32) & 0x1) << 8u32)) | (((a >> 7u32) & 0x1) << 7u32)) | (((a >> 6u32) & 0x1) << 6u32)) | (((a >> 5u32) & 0x1) << 5u32)) | (((a >> 4u32) & 0x1) << 4u32)) | (((a >> 3u32) & 0x1) << 3u32)) | (((a >> 2u32) & 0x1) << 2u32)) | (((a >> 1u32) & 0x1) << 1u32)) | (((a >> 0u32) & 0x1) << 0u32)) == a,
        low_mask(4u32) == 0xfu32,
        low_mask(28u32) == 0xfffffffu32,
        low_mask(2u32) == 0x3u32,
        low_mask(30u32) == 0x3fffffffu32,
        ((a >> q) & 0xf) & 0xfffffff0 == 0,
        ((a >> q) & 0x3) & 0xfffffffc == 0,
        (x < 0x10000000 && p & 0xfffffff0 == 0) ==> {
            &&& (((x << 4u32) | p) >> 4u32) & 0xfffffff == x
            &&& ((x << 4u32) | p) & 0xf == p
        },
        (x < 0x40000000 && p & 0xfffffffc == 0) ==> {
            &&& (((x << 2u32) | p) >> 2u32) & 0x3fffffff == x
            &&& ((x << 2u32) | p) & 0x3 == p
        },
        a < 0x10000000 ==> (((((((((a >> 24u32) & 0xf) << 24u32) | (((a >> 20u32) & 0xf) << 20u32)) | (((a >> 16u32) & 0xf) << 16u32)) | (((a >> 12u32) & 0xf) << 12u32)) | (((a >> 8u32) & 0xf) << 8u32)) | (((a >> 4u32) & 0xf) << 4u32)) | (((a >> 0u32) & 0xf) << 0u32)) == a,
        a < 0x40000000 ==> (((((((((((((((((a >> 28u32) & 0x3) << 28u32) | (((a >> 26u32) & 0x3) << 26u32)) | (((a >> 24u32) & 0x3) << 24u32)) | (((a >> 22u32) & 0x3) << 22u32)) | (((a >> 20u32) & 0x3) << 20u32)) | (((a >> 18u32) & 0x3) << 18u32)) | (((a >> 16u32) & 0x3) << 16u32)) | (((a >> 14u32) & 0x3) << 14u32)) | (((a >> 12u32) & 0x3) << 12u32)) | (((a >> 10u32) & 0x3) << 10u32)) | (((a >> 8u32) & 0x3) << 8u32)) | (((a >> 6u32) & 0x3) << 6u32)) | (((a >> 4u32) & 0x3) << 4u32)) | (((a >> 2u32) & 0x3) << 2u32)) | (((a >> 0u32) & 0x3) << 0u32)) == a,
        low_mask(8u32) == 0xffu32,
        low_mask(24u32) == 0xffffffu32,
        ((a >> q) & 0xff) & 0xffffff00 == 0,
        (x < 0x1000000 && p & 0xffffff00 == 0) ==> {
            &&& (((x << 8u32) | p) >> 8u32) & 0xffffff == x
            &&& ((x << 8u32) | p) & 0xff == p
        },
        a < 0x1000000 ==> (((((a >> 16u32) & 0xff) << 16u32) | (((a >> 8u32) & 0xff) << 8u32)) | (((a
            >> 0u32) & 0xff) << 0u32)) == a,
        lane_mask16(2u32) == 0x00030003u32,
        lane_mask16(1u32) == 0x00010001u32,
        (a < 16384 && b < 16384) ==> ((a << 16u32) | b) & 0xc000c000 == 0,
        (a < 32768 && b < 32768) ==> ((a << 16u32) | b) & 0x80008000 == 0,
        ((a >> q) & 0x00030003) & 0xfffcfffc == 0,
        ((a >> q) & 0x00010001) & 0xfffefffe == 0,
        (x & 0xc000c000 == 0 && p & 0xfffcfffc == 0) ==> {
            &&& (((x << 2u32) | p) >> 2u32) & 0x3fff3fff == x
            &&& ((x << 2u32) | p) & 0x00030003 == p
        },
        (x & 0x80008000 == 0 && p & 0xfffefffe == 0) ==> {
            &&& (((x << 1u32) | p) >> 1u32) & 0x7fff7fff == x
            &&& ((x << 1u32) | p) & 0x00010001 == p
        },
        a & 0xc000c000 == 0 ==> (((((((((a >> 12u32) & 0x00030003) << 12u32) | (((a >> 10u32) & 0x00030003) << 10u32)) | (((a >> 8u32) & 0x00030003) << 8u32)) | (((a >> 6u32) & 0x00030003) << 6u32)) | (((a >> 4u32) & 0x00030003) << 4u32)) | (((a >> 2u32) & 0x00030003) << 2u32)) | ((a >> 0u32) & 0x00030003)) == a,
        a & 0x80008000 == 0 ==> (((((((((((((((((a >> 14u32) & 0x00010001) << 14u32) | (((a >> 13u32) & 0x00010001) << 13u32)) | (((a >> 12u32) & 0x00010001) << 12u32)) | (((a >> 11u32) & 0x00010001) << 11u32)) | (((a >> 10u32) & 0x00010001) << 10u32)) | (((a >> 9u32) & 0x00010001) << 9u32)) | (((a >> 8u32) & 0x00010001) << 8u32)) | (((a >> 7u32) & 0x00010001) << 7u32)) | (((a >> 6u32) & 0x00010001) << 6u32)) | (((a >> 5u32) & 0x00010001) << 5u32)) | (((a >> 4u32) & 0x00010001) << 4u32)) | (((a >> 3u32) & 0x00010001) << 3u32)) | (((a >> 2u32) & 0x00010001) << 2u32)) | (((a >> 1u32) & 0x00010001) << 1u32)) | ((a >> 0u32) & 0x00010001)) == a,
        lane_mask16(4u32) == 0x000f000fu32,
        (a < 4096 && b < 4096) ==> ((a << 16u32) | b) & 0xf000f000 == 0,
        (x & 0xf000f000 == 0 && p & 0xfff0fff0 == 0) ==> {
            &&& (((x << 4u32) | p) >> 4u32) & 0x0fff0fff == x
            &&& ((x << 4u32) | p) & 0x000f000f == p
        },
        ((a >> 8u32) & 0x000f000f) & 0xfff0fff0 == 0,
        ((a >> 4u32) & 0x000f000f) & 0xfff0fff0 == 0,
        ((a >> 0u32) & 0x000f000f) & 0xfff0fff0 == 0,
        a & 0xf000f000 == 0 ==> ((((a >> 8u32) & 0x000f000f) << 8u32) | (((a >> 4u32) & 0x000f000f)
            << 4u32)) | ((a >> 0u32) & 0x000f000f) == a,
        (a < 128 && b < 128 && c < 128 && d < 128) ==> ((a << 24u32) | (b << 16u32) | (c << 8u32) | d)
            & 0x80808080 == 0,
        (x & 0x80808080 == 0 && p & 0xfefefefe == 0) ==> {
            &&& (((x << 1u32) | p) >> 1u32) & 0x7f7f7f7f == x
            &&& ((x << 1u32) | p) & 0x01010101 == p
        },
        ((a >> 6u32) & 0x01010101) & 0xfefefefe == 0,
        ((a >> 5u32) & 0x01010101) & 0xfefefefe == 0,
        ((a >> 4u32) & 0x01010101) & 0xfefefefe == 0,
        ((a >> 3u32) & 0x01010101) & 0xfefefefe == 0,
        ((a >> 2u32) & 0x01010101) & 0xfefefefe == 0,
        ((a >> 1u32) & 0x01010101) & 0xfefefefe == 0,
        ((a >> 0u32) & 0x01010101) & 0xfefefefe == 0,
        a & 0x80808080 == 0 ==> (((((((((a >> 6u32) & 0x01010101) << 6u32) | (((a >> 5u32)
            & 0x01010101) << 5u32)) | (((a >> 4u32) & 0x01010101) << 4u32)) | (((a >> 3u32)
            & 0x01010101) << 3u32)) | (((a >> 2u32) & 0x01010101) << 2u32)) | (((a >> 1u32)
            & 0x01010101) << 1u32)) | ((a >> 0u32) & 0x01010101)) == a,
        lane_mask8(3u32) == 0x07070707u32,
        ((((x >> 24u32) & 0xff) << 24u32) | (((x >> 16u32) & 0xff) << 16u32) | (((x >> 8u32) & 0xff)
            << 8u32) | (x & 0xff)) == x,
        (a < 32 && b < 32 && c < 32 && d < 32) ==> ((a << 24u32) | (b << 16u32) | (c << 8u32) | d)
            & 0xe0e0e0e0 == 0,
        (a < 64 && b < 64 && c < 64 && d < 64) ==> ((a << 24u32) | (b << 16u32) | (c << 8u32) | d)
            & 0xc0c0c0c0 == 0,
        (x & 0xc0c0c0c0 == 0 && p & 0xfcfcfcfc == 0) ==> {
            &&& (((x << 2u32) | p) >> 2u32) & 0x3f3f3f3f == x
            &&& ((x << 2u32) | p) & 0x03030303 == p
        },
        a & 0xc0c0c0c0 == 0 ==> {
            &&& ((a >> 4u32) & 0x03030303) & 0xfcfcfcfc == 0
            &&& ((a >> 2u32) & 0x03030303) & 0xfcfcfcfc == 0
            &&& ((a >> 0u32) & 0x03030303) & 0xfcfcfcfc == 0
            &&& ((((a >> 4u32) & 0x03030303) << 4u32) | (((a >> 2u32) & 0x03030303) << 2u32)) | ((a
                >> 0u32) & 0x03030303) == a
        },
        (x & 0xe0e0e0e0 == 0 && p & 0xf8f8f8f8 == 0) ==> {
            &&& (((x << 3u32) | p) >> 3u32) & 0x1f1f1f1f == x
            &&& ((x << 3u32) | p) & 0x07070707 == p
        },
        (x & 0xe0e0e0e0 == 0 && p & 0xf8f8f8f8 == 0 && q & 0xf8f8f8f8 == 0) ==> {
            &&& ((((x << 3u32) | p) | q) >> 3u32) & 0x1f1f1f1f == x
            &&& (((x << 3u32) | p) | q) & 0x07070707 == p | q
        },
        (a & 0xe0e0e0e0 == 0 && b & 0xe0e0e0e0 == 0 && c & 0xe0e0e0e0 == 0) ==> {
            &&& ((a >> 2u32) & 0x07070707) & 0xf8f8f8f8 == 0
            &&& ((a & 0x03030303) << 1u32) & 0xf8f8f8f8 == 0
            &&& ((b >> 4u32) & 0x01010101) & 0xf8f8f8f8 == 0
            &&& ((b >> 1u32) & 0x07070707) & 0xf8f8f8f8 == 0
            &&& ((b & 0x01010101) << 2u32) & 0xf8f8f8f8 == 0
            &&& ((c >> 3u32) & 0x03030303) & 0xf8f8f8f8 == 0
            &&& ((c >> 0u32) & 0x07070707) & 0xf8f8f8f8 == 0
            &&& (((a >> 2u32) & 0x07070707) << 2u32) | ((((((a & 0x03030303) << 1u32) | ((b >> 4u32)
                & 0x01010101)) >> 1u32) & 0x03030303)) == a
            &&& (((((((a & 0x03030303) << 1u32) | ((b >> 4u32) & 0x01010101)) & 0x01010101) << 4u32)
                | (((b >> 1u32) & 0x07070707) << 1u32)) | ((((((b & 0x01010101) << 2u32) | ((c
                >> 3u32) & 0x03030303)) >> 2u32) & 0x01010101))) == b
            &&& (((((b & 0x01010101) << 2u32) | ((c >> 3u32) & 0x03030303)) & 0x03030303) << 3u32) | ((c
                >> 0u32) & 0x07070707) == c
        },
{
}

/// The 24 words of a 6-bit block of byte lanes `col`: one shift band, and
/// in the low two bits of each lane the last eight lanes, three words each.
pub open spec fn words6(col: Seq<u32>) -> Seq<u32> {
    Seq::new(
        24,
        |t: int|
            {
                let z = col[24 + t / 3];
                let band = col[t] << 2u32;
                if t % 3 == 0 {
                    band | ((z >> 4u32) & prim_mask(8, 2))
                } else if t % 3 == 1 {
                    band | ((z >> 2u32) & prim_mask(8, 2))
                } else {
                    band | ((z >> 0u32) & prim_mask(8, 2))
                }
            },
    )
}

/// One stitched lane at 6 bits: three words updated.
pub open spec fn stitch6_group(col: Seq<u32>, tmp: Seq<u32>, kk: int) -> Seq<u32> {
    let t = 3 * kk;
    let z = col[24 + kk];
    tmp.update(t, tmp[t] | ((z >> 4u32) & prim_mask(8, 2))).update(
        t + 1,
        tmp[t + 1] | ((z >> 2u32) & prim_mask(8, 2)),
    ).update(t + 2, tmp[t + 2] | ((z >> 0u32) & prim_mask(8, 2)))
}

proof fn lemma_stitch6_group(col: Seq<u32>, tmp: Seq<u32>, kk: int)
    requires
        0 <= kk < 8,
        tmp.len() == BLOCK_SIZE,
    ensures
        stitch_from(col, 6, 8, 2, tmp, 3 * kk, 6, 24 + kk, (24 - 3 * kk) as nat) == stitch_from(
            col,
            6,
            8,
            2,
            stitch6_group(col, tmp, kk),
            3 * kk + 3,
            6,
            25 + kk,
            (21 - 3 * kk) as nat,
        ),
{
    let t = 3 * kk;
    let z = col[24 + kk];
    let s1 = tmp.update(t, tmp[t] | ((z >> 4u32) & prim_mask(8, 2)));
    assert(stitch_from(col, 6, 8, 2, tmp, t, 6, 24 + kk, (24 - 3 * kk) as nat) == stitch_from(
        col,
        6,
        8,
        2,
        s1,
        t + 1,
        4,
        24 + kk,
        (23 - 3 * kk) as nat,
    ));
    let s2 = s1.update(t + 1, s1[t + 1] | ((z >> 2u32) & prim_mask(8, 2)));
    assert(stitch_from(col, 6, 8, 2, s1, t + 1, 4, 24 + kk, (23 - 3 * kk) as nat) == stitch_from(
        col,
        6,
        8,
        2,
        s2,
        t + 2,
        2,
        24 + kk,
        (22 - 3 * kk) as nat,
    ));
    let s3 = s2.update(t + 2, s2[t + 2] | ((z >> 0u32) & prim_mask(8, 2)));
    assert(stitch_from(col, 6, 8, 2, s2, t + 2, 2, 24 + kk, (22 - 3 * kk) as nat) == stitch_from(
        col,
        6,
        8,
        2,
        s3,
        t + 3,
        6,
        25 + kk,
        (21 - 3 * kk) as nat,
    ));
    assert(s3 =~= stitch6_group(col, tmp, kk));
}

/// A 6-bit block packs into [`words6`].
proof fn lemma_packed6(col: Seq<u32>)
    requires
        col.len() == BLOCK_SIZE,
    ensures
        packed_block(col, 6, 8) == words6(col),
{
    assert(8u32 / 6u32 == 1) by (nonlinear_arith);
    let s0 = band_words(col, 6, 8);
    assert forall|t: int| 0 <= t < 24 implies #[trigger] s0[t] == col[t] << 2u32 by {
        assert(band_or(col, 6, 8, t, 1) == col[t] << 2u32);
    }
    let s1 = stitch6_group(col, s0, 0);
    let s2 = stitch6_group(col, s1, 1);
    let s3 = stitch6_group(col, s2, 2);
    let s4 = stitch6_group(col, s3, 3);
    let s5 = stitch6_group(col, s4, 4);
    let s6 = stitch6_group(col, s5, 5);
    let s7 = stitch6_group(col, s6, 6);
    let s8 = stitch6_group(col, s7, 7);
    lemma_stitch6_group(col, s0, 0);
    lemma_stitch6_group(col, s1, 1);
    lemma_stitch6_group(col, s2, 2);
    lemma_stitch6_group(col, s3, 3);
    lemma_stitch6_group(col, s4, 4);
    lemma_stitch6_group(col, s5, 5);
    lemma_stitch6_group(col, s6, 6);
    lemma_stitch6_group(col, s7, 7);
    assert(stitch_from(col, 6, 8, 2, s8, 24, 6, 32, 0) == s8);
    assert(packed_block(col, 6, 8) == s8.subrange(0, 24));
    assert forall|t: int| 0 <= t < 24 implies #[trigger] s8[t] == words6(col)[t] by {
        let g = t / 3;
        if g == 0 {
            assert(s8[t] == s1[t]);
        } else if g == 1 {
            assert(s8[t] == s2[t]);
            assert(s1[t] == s0[t]);
        } else if g == 2 {
            assert(s8[t] == s3[t]);
            assert(s2[t] == s0[t]);
        } else if g == 3 {
            assert(s8[t] == s4[t]);
            assert(s3[t] == s0[t]);
        } else if g == 4 {
            assert(s8[t] == s5[t]);
            assert(s4[t] == s0[t]);
        } else if g == 5 {
            assert(s8[t] == s6[t]);
            assert(s5[t] == s0[t]);
        } else if g == 6 {
            assert(s8[t] == s7[t]);
            assert(s6[t] == s0[t]);
        } else {
            assert(s7[t] == s0[t]);
        }
    }
    assert(s8.subrange(0, 24) =~= words6(col));
}

/// At 6 bits, what `encode` writes `decode` reads back as the block,
/// whatever bytes follow it, when every value is below 64.
#[verifier::spinoff_prover]
proof fn lemma_width6_round_trip(ints: Seq<u32>, post: Seq<u8>, k: int)
    requires
        ints.len() == BLOCK_SIZE,
        forall|i: int| 0 <= i < BLOCK_SIZE ==> #[trigger] ints[i] < 64,
        0 <= k < BLOCK_SIZE,
    ensures
        unpacked_value(6, for_bytes(ints, 6) + post, k) == ints[k],
{
    let col = collapsed_lanes(ints, 8);
    lemma_packed6(col);
    let w = words6(col);
    let buf = words_le(w) + post;
    assert(for_bytes(ints, 6) == words_le(w));
    lemma_width3_bits(0, 0, 0, 0, 0, 0, 0, 0, 0, 0);
    assert forall|j: int| 0 <= j < 32 implies #[trigger] col[j] & 0xc0c0c0c0 == 0 by {
        lemma_stitched_lane_bits(ints[j], ints[32 + j], ints[64 + j], ints[96 + j], 0, 0, 0);
    }
    assert forall|j: int| 0 <= j < 24 implies #[trigger] raw_words(buf, 0, 24)[j] == w[j] by {
        lemma_raw_words_of(w, post, j);
    }
    let raw = raw_words(buf, 0, 24);
    let m = k % 32;
    assert(packed_word(6, buf, m) == col[m]) by {
        if m < 24 {
            let z = col[24 + m / 3];
            lemma_stitched_lane_bits(z, 0, 0, 0, 0, 0, 0);
            let pc = if m % 3 == 0 {
                (z >> 4u32) & 0x03030303
            } else if m % 3 == 1 {
                (z >> 2u32) & 0x03030303
            } else {
                (z >> 0u32) & 0x03030303
            };
            assert(w[m] == (col[m] << 2u32) | pc);
            lemma_stitched_lane_bits(0, 0, 0, 0, col[m], pc, 0);
            assert(raw[m] == w[m]);
            assert(packed_word(6, buf, m) == shr_spec(raw[m], 2) & MASK8_6);
        } else {
            let g = m - 24;
            let t = 3 * g;
            let z = col[m];
            lemma_stitched_lane_bits(z, 0, 0, 0, 0, 0, 0);
            assert(w[t] == (col[t] << 2u32) | ((z >> 4u32) & 0x03030303));
            assert(w[t + 1] == (col[t + 1] << 2u32) | ((z >> 2u32) & 0x03030303));
            assert(w[t + 2] == (col[t + 2] << 2u32) | ((z >> 0u32) & 0x03030303));
            lemma_stitched_lane_bits(0, 0, 0, 0, col[t], (z >> 4u32) & 0x03030303, 0);
            lemma_stitched_lane_bits(0, 0, 0, 0, col[t + 1], (z >> 2u32) & 0x03030303, 0);
            lemma_stitched_lane_bits(0, 0, 0, 0, col[t + 2], (z >> 0u32) & 0x03030303, 0);
            assert(raw[t] == w[t] && raw[t + 1] == w[t + 1] && raw[t + 2] == w[t + 2]);
            assert(packed_word(6, buf, m) == decode6_tail(raw, g, 0));
        }
    }
    lemma_lanes(ints[m], ints[32 + m], ints[64 + m], ints[96 + m], 0, 0);
    assert(k < 32 ==> k == m);
    assert(32 <= k < 64 ==> k == 32 + m);
    assert(64 <= k < 96 ==> k == 64 + m);
    assert(96 <= k ==> k == 96 + m);
}

/// The 20 words of a 5-bit block of byte lanes `col`: one shift band, and
/// in the low three bits of each lane the last twelve lanes, five words
/// per three.
pub open spec fn words5(col: Seq<u32>) -> Seq<u32> {
    Seq::new(
        20,
        |t: int|
            {
                let g = t / 5;
                let a = col[20 + 3 * g];
                let b = col[21 + 3 * g];
                let c = col[22 + 3 * g];
                let band = col[t] << 3u32;
                if t % 5 == 0 {
                    band | ((a >> 2u32) & prim_mask(8, 3))
                } else if t % 5 == 1 {
                    (band | ((a & prim_mask(8, 2)) << 1u32)) | ((b >> 4u32) & prim_mask(8, 1))
                } else if t % 5 == 2 {
                    band | ((b >> 1u32) & prim_mask(8, 3))
                } else if t % 5 == 3 {
                    (band | ((b & prim_mask(8, 1)) << 2u32)) | ((c >> 3u32) & prim_mask(8, 2))
                } else {
                    band | ((c >> 0u32) & prim_mask(8, 3))
                }
            },
    )
}

/// Three stitched lanes at 5 bits: five words updated.
pub open spec fn stitch5_group(col: Seq<u32>, tmp: Seq<u32>, g: int) -> Seq<u32> {
    let t = 5 * g;
    let a = col[20 + 3 * g];
    let b = col[21 + 3 * g];
    let c = col[22 + 3 * g];
    tmp.update(t, tmp[t] | ((a >> 2u32) & prim_mask(8, 3))).update(
        t + 1,
        (tmp[t + 1] | ((a & prim_mask(8, 2)) << 1u32)) | ((b >> 4u32) & prim_mask(8, 1)),
    ).update(t + 2, tmp[t + 2] | ((b >> 1u32) & prim_mask(8, 3))).update(
        t + 3,
        (tmp[t + 3] | ((b & prim_mask(8, 1)) << 2u32)) | ((c >> 3u32) & prim_mask(8, 2)),
    ).update(t + 4, tmp[t + 4] | ((c >> 0u32) & prim_mask(8, 3)))
}

proof fn lemma_stitch5_group(col: Seq<u32>, tmp: Seq<u32>, g: int)
    requires
        0 <= g < 4,
        tmp.len() == BLOCK_SIZE,
    ensures
        stitch_from(col, 5, 8, 3, tmp, 5 * g, 5, 20 + 3 * g, (20 - 5 * g) as nat) == stitch_from(
            col,
            5,
            8,
            3,
            stitch5_group(col, tmp, g),
            5 * g + 5,
            5,
            23 + 3 * g,
            (15 - 5 * g) as nat,
        ),
{
    let t = 5 * g;
    let a = col[20 + 3 * g];
    let b = col[21 + 3 * g];
    let c = col[22 + 3 * g];
    let s1 = tmp.update(t, tmp[t] | ((a >> 2u32) & prim_mask(8, 3)));
    assert(stitch_from(col, 5, 8, 3, tmp, t, 5, 20 + 3 * g, (20 - 5 * g) as nat) == stitch_from(
        col,
        5,
        8,
        3,
        s1,
        t + 1,
        2,
        20 + 3 * g,
        (19 - 5 * g) as nat,
    ));
    let s2 = s1.update(t + 1, (s1[t + 1] | ((a & prim_mask(8, 2)) << 1u32)) | ((b >> 4u32) & prim_mask(8, 1)));
    assert(stitch_from(col, 5, 8, 3, s1, t + 1, 2, 20 + 3 * g, (19 - 5 * g) as nat) == stitch_from(
        col,
        5,
        8,
        3,
        s2,
        t + 2,
        4,
        21 + 3 * g,
        (18 - 5 * g) as nat,
    ));
    let s3 = s2.update(t + 2, s2[t + 2] | ((b >> 1u32) & prim_mask(8, 3)));
    assert(stitch_from(col, 5, 8, 3, s2, t + 2, 4, 21 + 3 * g, (18 - 5 * g) as nat) == stitch_from(
        col,
        5,
        8,
        3,
        s3,
        t + 3,
        1,
        21 + 3 * g,
        (17 - 5 * g) as nat,
    ));
    let s4 = s3.update(t + 3, (s3[t + 3] | ((b & prim_mask(8, 1)) << 2u32)) | ((c >> 3u32) & prim_mask(8, 2)));
    assert(stitch_from(col, 5, 8, 3, s3, t + 3, 1, 21 + 3 * g, (17 - 5 * g) as nat) == stitch_from(
        col,
        5,
        8,
        3,
        s4,
        t + 4,
        3,
        22 + 3 * g,
        (16 - 5 * g) as nat,
    ));
    let s5 = s4.update(t + 4, s4[t + 4] | ((c >> 0u32) & prim_mask(8, 3)));
    assert(stitch_from(col, 5, 8, 3, s4, t + 4, 3, 22 + 3 * g, (16 - 5 * g) as nat) == stitch_from(
        col,
        5,
        8,
        3,
        s5,
        t + 5,
        5,
        23 + 3 * g,
        (15 - 5 * g) as nat,
    ));
    assert(s5 =~= stitch5_group(col, tmp, g));
}

/// A 5-bit block packs into [`words5`].
proof fn lemma_packed5(col: Seq<u32>)
    requires
        col.len() == BLOCK_SIZE,
    ensures
        packed_block(col, 5, 8) == words5(col),
{
    assert(8u32 / 5u32 == 1) by (nonlinear_arith);
    let s0 = band_words(col, 5, 8);
    assert forall|t: int| 0 <= t < 20 implies #[trigger] s0[t] == col[t] << 3u32 by {
        assert(band_or(col, 5, 8, t, 1) == col[t] << 3u32);
    }
    let s1 = stitch5_group(col, s0, 0);
    let s2 = stitch5_group(col, s1, 1);
    let s3 = stitch5_group(col, s2, 2);
    let s4 = stitch5_group(col, s3, 3);
    lemma_stitch5_group(col, s0, 0);
    lemma_stitch5_group(col, s1, 1);
    lemma_stitch5_group(col, s2, 2);
    lemma_stitch5_group(col, s3, 3);
    assert(stitch_from(col, 5, 8, 3, s4, 20, 5, 32, 0) == s4);
    assert(packed_block(col, 5, 8) == s4.subrange(0, 20));
    assert forall|t: int| 0 <= t < 20 implies #[trigger] s4[t] == words5(col)[t] by {
        let g = t / 5;
        if g == 0 {
            assert(s4[t] == s1[t]);
        } else if g == 1 {
            assert(s4[t] == s2[t]);
            assert(s1[t] == s0[t]);
        } else if g == 2 {
            assert(s4[t] == s3[t]);
            assert(s2[t] == s0[t]);
        } else {
            assert(s3[t] == s0[t]);
        }
    }
    assert(s4.subrange(0, 20) =~= words5(col));
}

/// At 5 bits, what `encode` writes `decode` reads back as the block,
/// whatever bytes follow it, when every value is below 32.
#[verifier::spinoff_prover]
#[verifier::rlimit(80)]
proof fn lemma_width5_round_trip(ints: Seq<u32>, post: Seq<u8>, k: int)
    requires
        ints.len() == BLOCK_SIZE,
        forall|i: int| 0 <= i < BLOCK_SIZE ==> #[trigger] ints[i] < 32,
        0 <= k < BLOCK_SIZE,
    ensures
        unpacked_value(5, for_bytes(ints, 5) + post, k) == ints[k],
{
    let col = collapsed_lanes(ints, 8);
    lemma_packed5(col);
    let w = words5(col);
    let buf = words_le(w) + post;
    assert(for_bytes(ints, 5) == words_le(w));
    lemma_width3_bits(0, 0, 0, 0, 0, 0, 0, 0, 0, 0);
    lemma_stitched_lane_bits(0, 0, 0, 0, 0, 0, 0);
    assert forall|j: int| 0 <= j < 32 implies #[trigger] col[j] & 0xe0e0e0e0 == 0 by {
        lemma_stitched_lane_bits(ints[j], ints[32 + j], ints[64 + j], ints[96 + j], 0, 0, 0);
    }
    assert forall|j: int| 0 <= j < 20 implies #[trigger] raw_words(buf, 0, 20)[j] == w[j] by {
        lemma_raw_words_of(w, post, j);
    }
    let raw = raw_words(buf, 0, 20);
    let m = k % 32;
    assert(packed_word(5, buf, m) == col[m]) by {
        let g = if m < 20 {
            m / 5
        } else {
            (m - 20) / 3
        };
        let a = col[20 + 3 * g];
        let b = col[21 + 3 * g];
        let c = col[22 + 3 * g];
        lemma_stitched_lane_bits(a, b, c, 0, 0, 0, 0);
        let t = 5 * g;
        assert(w[t] == (col[t] << 3u32) | ((a >> 2u32) & 0x07070707));
        assert(w[t + 1] == ((col[t + 1] << 3u32) | ((a & 0x03030303) << 1u32)) | ((b >> 4u32) & 0x01010101));
        assert(w[t + 2] == (col[t + 2] << 3u32) | ((b >> 1u32) & 0x07070707));
        assert(w[t + 3] == ((col[t + 3] << 3u32) | ((b & 0x01010101) << 2u32)) | ((c >> 3u32) & 0x03030303));
        assert(w[t + 4] == (col[t + 4] << 3u32) | ((c >> 0u32) & 0x07070707));
        lemma_stitched_lane_bits(0, 0, 0, 0, col[t], (a >> 2u32) & 0x07070707, 0);
        lemma_stitched_lane_bits(0, 0, 0, 0, col[t + 1], (a & 0x03030303) << 1u32, (b >> 4u32) & 0x01010101);
        lemma_stitched_lane_bits(0, 0, 0, 0, col[t + 2], (b >> 1u32) & 0x07070707, 0);
        lemma_stitched_lane_bits(0, 0, 0, 0, col[t + 3], (b & 0x01010101) << 2u32, (c >> 3u32) & 0x03030303);
        lemma_stitched_lane_bits(0, 0, 0, 0, col[t + 4], (c >> 0u32) & 0x07070707, 0);
        assert(raw[t] == w[t] && raw[t + 1] == w[t + 1] && raw[t + 2] == w[t + 2]);
        assert(raw[t + 3] == w[t + 3] && raw[t + 4] == w[t + 4]);
        if m < 20 {
            assert(packed_word(5, buf, m) == shr_spec(raw[m], 3) & MASK8_5);
        } else {
            assert(packed_word(5, buf, m) == decode5_tail(raw, g, (m - 20) % 3));
        }
    }
    lemma_lanes(ints[m], ints[32 + m], ints[64 + m], ints[96 + m], 0, 0);
    assert(k < 32 ==> k == m);
    assert(32 <= k < 64 ==> k == 32 + m);
    assert(64 <= k < 96 ==> k == 64 + m);
    assert(96 <= k ==> k == 96 + m);
}

/// The 28 words of a 7-bit block of byte lanes `col`: one shift band, and
/// in the low bit of each lane the last four lanes, seven words each.
pub open spec fn words7(col: Seq<u32>) -> Seq<u32> {
    Seq::new(
        28,
        |t: int| (col[t] << 1u32) | ((col[28 + t / 7] >> ((6 - t % 7) as u32)) & prim_mask(8, 1)),
    )
}

/// One stitched lane at 7 bits: seven words updated.
pub open spec fn stitch7_group(col: Seq<u32>, tmp: Seq<u32>, g: int) -> Seq<u32> {
    let t = 7 * g;
    let z = col[28 + g];
    tmp.update(t, tmp[t] | ((z >> 6u32) & prim_mask(8, 1))).update(
        t + 1,
        tmp[t + 1] | ((z >> 5u32) & prim_mask(8, 1)),
    ).update(t + 2, tmp[t + 2] | ((z >> 4u32) & prim_mask(8, 1))).update(
        t + 3,
        tmp[t + 3] | ((z >> 3u32) & prim_mask(8, 1)),
    ).update(t + 4, tmp[t + 4] | ((z >> 2u32) & prim_mask(8, 1))).update(
        t + 5,
        tmp[t + 5] | ((z >> 1u32) & prim_mask(8, 1)),
    ).update(t + 6, tmp[t + 6] | ((z >> 0u32) & prim_mask(8, 1)))
}

proof fn lemma_stitch7_step(col: Seq<u32>, tmp: Seq<u32>, t: int, r: u32, g: int)
    requires
        0 <= g < 4,
        1 <= r <= 7,
        t == 7 * g + (7 - r),
        tmp.len() == BLOCK_SIZE,
    ensures
        stitch_from(col, 7, 8, 1, tmp, t, r, 28 + g, (28 - t) as nat) == stitch_from(
            col,
            7,
            8,
            1,
            tmp.update(t, tmp[t] | ((col[28 + g] >> ((r - 1) as u32)) & prim_mask(8, 1))),
            t + 1,
            if r == 1 {
                7u32
            } else {
                (r - 1) as u32
            },
            if r == 1 {
                29 + g
            } else {
                28 + g
            },
            (27 - t) as nat,
        ),
{
}

proof fn lemma_stitch7_group(col: Seq<u32>, tmp: Seq<u32>, g: int)
    requires
        0 <= g < 4,
        tmp.len() == BLOCK_SIZE,
    ensures
        stitch_from(col, 7, 8, 1, tmp, 7 * g, 7, 28 + g, (28 - 7 * g) as nat) == stitch_from(
            col,
            7,
            8,
            1,
            stitch7_group(col, tmp, g),
            7 * g + 7,
            7,
            29 + g,
            (21 - 7 * g) as nat,
        ),
{
    let t = 7 * g;
    let z = col[28 + g];
    let pm = prim_mask(8, 1);
    let s1 = tmp.update(t, tmp[t] | ((z >> 6u32) & pm));
    let s2 = s1.update(t + 1, s1[t + 1] | ((z >> 5u32) & pm));
    let s3 = s2.update(t + 2, s2[t + 2] | ((z >> 4u32) & pm));
    let s4 = s3.update(t + 3, s3[t + 3] | ((z >> 3u32) & pm));
    let s5 = s4.update(t + 4, s4[t + 4] | ((z >> 2u32) & pm));
    let s6 = s5.update(t + 5, s5[t + 5] | ((z >> 1u32) & pm));
    let s7 = s6.update(t + 6, s6[t + 6] | ((z >> 0u32) & pm));
    lemma_stitch7_step(col, tmp, t, 7, g);
    lemma_stitch7_step(col, s1, t + 1, 6, g);
    lemma_stitch7_step(col, s2, t + 2, 5, g);
    lemma_stitch7_step(col, s3, t + 3, 4, g);
    lemma_stitch7_step(col, s4, t + 4, 3, g);
    lemma_stitch7_step(col, s5, t + 5, 2, g);
    lemma_stitch7_step(col, s6, t + 6, 1, g);
    assert(s7 =~= stitch7_group(col, tmp, g));
}

/// A 7-bit block packs into [`words7`].
proof fn lemma_packed7(col: Seq<u32>)
    requires
        col.len() == BLOCK_SIZE,
    ensures
        packed_block(col, 7, 8) == words7(col),
{
    assert(8u32 / 7u32 == 1) by (nonlinear_arith);
    let s0 = band_words(col, 7, 8);
    assert forall|t: int| 0 <= t < 28 implies #[trigger] s0[t] == col[t] << 1u32 by {
        assert(band_or(col, 7, 8, t, 1) == col[t] << 1u32);
    }
    let s1 = stitch7_group(col, s0, 0);
    let s2 = stitch7_group(col, s1, 1);
    let s3 = stitch7_group(col, s2, 2);
    let s4 = stitch7_group(col, s3, 3);
    lemma_stitch7_group(col, s0, 0);
    lemma_stitch7_group(col, s1, 1);
    lemma_stitch7_group(col, s2, 2);
    lemma_stitch7_group(col, s3, 3);
    assert(stitch_from(col, 7, 8, 1, s4, 28, 7, 32, 0) == s4);
    assert(packed_block(col, 7, 8) == s4.subrange(0, 28));
    assert forall|t: int| 0 <= t < 28 implies #[trigger] s4[t] == words7(col)[t] by {
        let g = t / 7;
        let i = t % 7;
        assert(t == 7 * g + i);
        if g == 0 {
            assert(s4[t] == s1[t]);
        } else if g == 1 {
            assert(s4[t] == s2[t]);
            assert(s1[t] == s0[t]);
        } else if g == 2 {
            assert(s4[t] == s3[t]);
            assert(s2[t] == s0[t]);
        } else {
            assert(s3[t] == s0[t]);
        }
        assert(((6 - i) as u32) == (if i == 0 {
            6u32
        } else if i == 1 {
            5u32
        } else if i == 2 {
            4u32
        } else if i == 3 {
            3u32
        } else if i == 4 {
            2u32
        } else if i == 5 {
            1u32
        } else {
            0u32
        }));
    }
    assert(s4.subrange(0, 28) =~= words7(col));
}

/// At 7 bits, what `encode` writes `decode` reads back as the block,
/// whatever bytes follow it, when every value is below 128.
#[verifier::spinoff_prover]
#[verifier::rlimit(80)]
proof fn lemma_width7_round_trip(ints: Seq<u32>, post: Seq<u8>, k: int)
    requires
        ints.len() == BLOCK_SIZE,
        forall|i: int| 0 <= i < BLOCK_SIZE ==> #[trigger] ints[i] < 128,
        0 <= k < BLOCK_SIZE,
    ensures
        unpacked_value(7, for_bytes(ints, 7) + post, k) == ints[k],
{
    let col = collapsed_lanes(ints, 8);
    lemma_packed7(col);
    let w = words7(col);
    let buf = words_le(w) + post;
    assert(for_bytes(ints, 7) == words_le(w));
    lemma_width3_bits(0, 0, 0, 0, 0, 0, 0, 0, 0, 0);
    assert forall|j: int| 0 <= j < 32 implies #[trigger] col[j] & 0x80808080 == 0 by {
        lemma_stitched_lane_bits(ints[j], ints[32 + j], ints[64 + j], ints[96 + j], 0, 0, 0);
    }
    assert forall|j: int| 0 <= j < 28 implies #[trigger] raw_words(buf, 0, 28)[j] == w[j] by {
        lemma_raw_words_of(w, post, j);
    }
    let raw = raw_words(buf, 0, 28);
    let m = k % 32;
    assert forall|t: int| 0 <= t < 28 implies (#[trigger] raw[t] >> 1u32) & 0x7f7f7f7f == col[t] && raw[t]
        & 0x01010101 == (col[28 + t / 7] >> ((6 - t % 7) as u32)) & 0x01010101 by {
        let z = col[28 + t / 7];
        lemma_stitched_lane_bits(z, 0, 0, 0, 0, 0, 0);
        let pc = (z >> ((6 - t % 7) as u32)) & 0x01010101;
        assert(pc & 0xfefefefe == 0) by {
            let i = t % 7;
            if i == 0 {
                assert(pc == (z >> 6u32) & 0x01010101);
            } else if i == 1 {
                assert(pc == (z >> 5u32) & 0x01010101);
            } else if i == 2 {
                assert(pc == (z >> 4u32) & 0x01010101);
            } else if i == 3 {
                assert(pc == (z >> 3u32) & 0x01010101);
            } else if i == 4 {
                assert(pc == (z >> 2u32) & 0x01010101);
            } else if i == 5 {
                assert(pc == (z >> 1u32) & 0x01010101);
            } else {
                assert(pc == (z >> 0u32) & 0x01010101);
            }
        }
        lemma_stitched_lane_bits(0, 0, 0, 0, col[t], pc, 0);
        assert(raw[t] == w[t]);
    }
    assert(packed_word(7, buf, m) == col[m]) by {
        if m < 28 {
            assert((raw[m] >> 1u32) & 0x7f7f7f7f == col[m]);
            assert(packed_word(7, buf, m) == shr_spec(raw[m], 1) & MASK8_7);
        } else {
            let g = m - 28;
            let t = 7 * g;
            let z = col[m];
            lemma_stitched_lane_bits(z, 0, 0, 0, 0, 0, 0);
            assert(raw[t] & 0x01010101 == (z >> 6u32) & 0x01010101);
            assert(raw[t + 1] & 0x01010101 == (z >> 5u32) & 0x01010101);
            assert(raw[t + 2] & 0x01010101 == (z >> 4u32) & 0x01010101);
            assert(raw[t + 3] & 0x01010101 == (z >> 3u32) & 0x01010101);
            assert(raw[t + 4] & 0x01010101 == (z >> 2u32) & 0x01010101);
            assert(raw[t + 5] & 0x01010101 == (z >> 1u32) & 0x01010101);
            assert(raw[t + 6] & 0x01010101 == (z >> 0u32) & 0x01010101);
            assert(packed_word(7, buf, m) == decode7_tail(raw, g, 0));
        }
    }
    lemma_lanes(ints[m], ints[32 + m], ints[64 + m], ints[96 + m], 0, 0);
    assert(k < 32 ==> k == m);
    assert(32 <= k < 64 ==> k == 32 + m);
    assert(64 <= k < 96 ==> k == 64 + m);
    assert(96 <= k ==> k == 96 + m);
}

/// The 48 words of a 12-bit block of half-word lanes `col`: one shift
/// band, and in the low four bits of each lane the last sixteen lanes,
/// three words each.
pub open spec fn words12(col: Seq<u32>) -> Seq<u32> {
    Seq::new(
        48,
        |t: int|
            {
                let z = col[48 + t / 3];
                let band = col[t] << 4u32;
                if t % 3 == 0 {
                    band | ((z >> 8u32) & prim_mask(16, 4))
                } else if t % 3 == 1 {
                    band | ((z >> 4u32) & prim_mask(16, 4))
                } else {
                    band | ((z >> 0u32) & prim_mask(16, 4))
                }
            },
    )
}

/// One stitched lane at 12 bits: three words updated.
pub open spec fn stitch12_group(col: Seq<u32>, tmp: Seq<u32>, g: int) -> Seq<u32> {
    let t = 3 * g;
    let z = col[48 + g];
    tmp.update(t, tmp[t] | ((z >> 8u32) & prim_mask(16, 4))).update(
        t + 1,
        tmp[t + 1] | ((z >> 4u32) & prim_mask(16, 4)),
    ).update(t + 2, tmp[t + 2] | ((z >> 0u32) & prim_mask(16, 4)))
}

proof fn lemma_stitch12_group(col: Seq<u32>, tmp: Seq<u32>, g: int)
    requires
        0 <= g < 16,
        tmp.len() == BLOCK_SIZE,
    ensures
        stitch_from(col, 12, 16, 4, tmp, 3 * g, 12, 48 + g, (48 - 3 * g) as nat) == stitch_from(
            col,
            12,
            16,
            4,
            stitch12_group(col, tmp, g),
            3 * g + 3,
            12,
            49 + g,
            (45 - 3 * g) as nat,
        ),
{
    let t = 3 * g;
    let z = col[48 + g];
    let s1 = tmp.update(t, tmp[t] | ((z >> 8u32) & prim_mask(16, 4)));
    assert(stitch_from(col, 12, 16, 4, tmp, t, 12, 48 + g, (48 - 3 * g) as nat) == stitch_from(
        col,
        12,
        16,
        4,
        s1,
        t + 1,
        8,
        48 + g,
        (47 - 3 * g) as nat,
    ));
    let s2 = s1.update(t + 1, s1[t + 1] | ((z >> 4u32) & prim_mask(16, 4)));
    assert(stitch_from(col, 12, 16, 4, s1, t + 1, 8, 48 + g, (47 - 3 * g) as nat) == stitch_from(
        col,
        12,
        16,
        4,
        s2,
        t + 2,
        4,
        48 + g,
        (46 - 3 * g) as nat,
    ));
    let s3 = s2.update(t + 2, s2[t + 2] | ((z >> 0u32) & prim_mask(16, 4)));
    assert(stitch_from(col, 12, 16, 4, s2, t + 2, 4, 48 + g, (46 - 3 * g) as nat) == stitch_from(
        col,
        12,
        16,
        4,
        s3,
        t + 3,
        12,
        49 + g,
        (45 - 3 * g) as nat,
    ));
    assert(s3 =~= stitch12_group(col, tmp, g));
}

/// Stitching the lanes from group `g` on leaves the words before group `g`
/// as they were and ends with the words of [`words12`] from there.
proof fn lemma_stitch12_rest(col: Seq<u32>, tmp: Seq<u32>, g: int)
    requires
        0 <= g <= 16,
        tmp.len() == BLOCK_SIZE,
        forall|t: int| 3 * g <= t < 48 ==> #[trigger] tmp[t] == col[t] << 4u32,
    ensures
        ({
            let r = stitch_from(col, 12, 16, 4, tmp, 3 * g, 12, 48 + g, (48 - 3 * g) as nat);
            &&& r.len() == BLOCK_SIZE
            &&& forall|t: int| 0 <= t < 3 * g ==> #[trigger] r[t] == tmp[t]
            &&& forall|t: int| 3 * g <= t < 48 ==> #[trigger] r[t] == words12(col)[t]
        }),
    decreases 16 - g,
{
    if g == 16 {
        assert(stitch_from(col, 12, 16, 4, tmp, 48, 12, 64, 0) == tmp);
    } else {
        let n = stitch12_group(col, tmp, g);
        lemma_stitch12_group(col, tmp, g);
        lemma_stitch12_rest(col, n, g + 1);
        let r = stitch_from(col, 12, 16, 4, tmp, 3 * g, 12, 48 + g, (48 - 3 * g) as nat);
        assert forall|t: int| 3 * g <= t < 48 implies #[trigger] r[t] == words12(col)[t] by {
            if t < 3 * g + 3 {
                assert(t / 3 == g);
            }
        }
    }
}

/// A 12-bit block packs into [`words12`].
proof fn lemma_packed12(col: Seq<u32>)
    requires
        col.len() == BLOCK_SIZE,
    ensures
        packed_block(col, 12, 16) == words12(col),
{
    assert(16u32 / 12u32 == 1) by (nonlinear_arith);
    let s0 = band_words(col, 12, 16);
    assert forall|t: int| 0 <= t < 48 implies #[trigger] s0[t] == col[t] << 4u32 by {
        assert(band_or(col, 12, 16, t, 1) == col[t] << 4u32);
    }
    lemma_stitch12_rest(col, s0, 0);
    assert(packed_block(col, 12, 16) =~= words12(col));
}

/// At 12 bits, what `encode` writes `decode` reads back as the block,
/// whatever bytes follow it, when every value is below 4096.
#[verifier::spinoff_prover]
#[verifier::rlimit(80)]
proof fn lemma_width12_round_trip(ints: Seq<u32>, post: Seq<u8>, k: int)
    requires
        ints.len() == BLOCK_SIZE,
        forall|i: int| 0 <= i < BLOCK_SIZE ==> #[trigger] ints[i] < 4096,
        0 <= k < BLOCK_SIZE,
    ensures
        unpacked_value(12, for_bytes(ints, 12) + post, k) == ints[k],
{
    let col = collapsed_lanes(ints, 16);
    lemma_packed12(col);
    let w = words12(col);
    let buf = words_le(w) + post;
    assert(for_bytes(ints, 12) == words_le(w));
    lemma_stitched_lane_bits(0, 0, 0, 0, 0, 0, 0);
    assert forall|j: int| 0 <= j < 64 implies #[trigger] col[j] & 0xf000f000 == 0 by {
        lemma_stitched_lane_bits(ints[j], ints[64 + j], 0, 0, 0, 0, 0);
    }
    assert forall|j: int| 0 <= j < 48 implies #[trigger] raw_words(buf, 0, 48)[j] == w[j] by {
        lemma_raw_words_of(w, post, j);
    }
    let raw = raw_words(buf, 0, 48);
    let m = k % 64;
    assert(packed_word(12, buf, m) == col[m]) by {
        if m < 48 {
            let z = col[48 + m / 3];
            lemma_stitched_lane_bits(z, 0, 0, 0, 0, 0, 0);
            let pc = if m % 3 == 0 {
                (z >> 8u32) & 0x000f000f
            } else if m % 3 == 1 {
                (z >> 4u32) & 0x000f000f
            } else {
                (z >> 0u32) & 0x000f000f
            };
            assert(w[m] == (col[m] << 4u32) | pc);
            lemma_stitched_lane_bits(0, 0, 0, 0, col[m], pc, 0);
            assert(raw[m] == w[m]);
            assert(packed_word(12, buf, m) == shr_spec(raw[m], 4) & MASK16_12);
        } else {
            let g = m - 48;
            let t = 3 * g;
            let z = col[m];
            lemma_stitched_lane_bits(z, 0, 0, 0, 0, 0, 0);
            assert(w[t] == (col[t] << 4u32) | ((z >> 8u32) & 0x000f000f));
            assert(w[t + 1] == (col[t + 1] << 4u32) | ((z >> 4u32) & 0x000f000f));
            assert(w[t + 2] == (col[t + 2] << 4u32) | ((z >> 0u32) & 0x000f000f));
            lemma_stitched_lane_bits(0, 0, 0, 0, col[t], (z >> 8u32) & 0x000f000f, 0);
            lemma_stitched_lane_bits(0, 0, 0, 0, col[t + 1], (z >> 4u32) & 0x000f000f, 0);
            lemma_stitched_lane_bits(0, 0, 0, 0, col[t + 2], (z >> 0u32) & 0x000f000f, 0);
            assert(raw[t] == w[t] && raw[t + 1] == w[t + 1] && raw[t + 2] == w[t + 2]);
            assert(packed_word(12, buf, m) == decode12_tail(raw, g, 0));
        }
    }
    lemma_lanes(0, 0, 0, 0, ints[m], ints[64 + m]);
    assert(k < 64 ==> k == m);
    assert(64 <= k ==> k == 64 + m);
}

/// The 56 words of a 14-bit block of half-word lanes `col`: one shift
/// band, and in the low two bits of each lane the last eight lanes, seven
/// words each.
pub open spec fn words14(col: Seq<u32>) -> Seq<u32> {
    Seq::new(
        56,
        |t: int|
            (col[t] << 2u32) | ((col[56 + t / 7] >> ((12 - 2 * (t % 7)) as u32)) & prim_mask(16, 2)),
    )
}

/// Stitching the lanes from word `t` on leaves the words before it as
/// they were and ends with the words of [`words14`] from there.
proof fn lemma_stitch14_rest(col: Seq<u32>, tmp: Seq<u32>, t: int)
    requires
        0 <= t <= 56,
        tmp.len() == BLOCK_SIZE,
        forall|j: int| t <= j < 56 ==> #[trigger] tmp[j] == col[j] << 2u32,
    ensures
        ({
            let r = stitch_from(
                col,
                14,
                16,
                2,
                tmp,
                t,
                (14 - 2 * (t % 7)) as u32,
                56 + t / 7,
                (56 - t) as nat,
            );
            &&& r.len() == BLOCK_SIZE
            &&& forall|j: int| 0 <= j < t ==> #[trigger] r[j] == tmp[j]
            &&& forall|j: int| t <= j < 56 ==> #[trigger] r[j] == words14(col)[j]
        }),
    decreases 56 - t,
{
    if t < 56 {
        let rb = (14 - 2 * (t % 7)) as u32;
        let idx = 56 + t / 7;
        let n = tmp.update(t, tmp[t] | ((col[idx] >> ((rb - 2) as u32)) & prim_mask(16, 2)));
        assert(stitch_from(col, 14, 16, 2, tmp, t, rb, idx, (56 - t) as nat) == stitch_from(
            col,
            14,
            16,
            2,
            n,
            t + 1,
            (14 - 2 * ((t + 1) % 7)) as u32,
            56 + (t + 1) / 7,
            (56 - t - 1) as nat,
        ));
        lemma_stitch14_rest(col, n, t + 1);
        assert(((rb - 2) as u32) == ((12 - 2 * (t % 7)) as u32));
    } else {
        assert(stitch_from(col, 14, 16, 2, tmp, 56, 14, 64, 0) == tmp);
    }
}

/// A 14-bit block packs into [`words14`].
proof fn lemma_packed14(col: Seq<u32>)
    requires
        col.len() == BLOCK_SIZE,
    ensures
        packed_block(col, 14, 16) == words14(col),
{
    assert(16u32 / 14u32 == 1) by (nonlinear_arith);
    let s0 = band_words(col, 14, 16);
    assert forall|t: int| 0 <= t < 56 implies #[trigger] s0[t] == col[t] << 2u32 by {
        assert(band_or(col, 14, 16, t, 1) == col[t] << 2u32);
    }
    lemma_stitch14_rest(col, s0, 0);
    assert(packed_block(col, 14, 16) =~= words14(col));
}

/// At 14 bits, what `encode` writes `decode` reads back as the block,
/// whatever bytes follow it, when every value is below 16384.
#[verifier::spinoff_prover]
#[verifier::rlimit(80)]
proof fn lemma_width14_round_trip(ints: Seq<u32>, post: Seq<u8>, k: int)
    requires
        ints.len() == BLOCK_SIZE,
        forall|i: int| 0 <= i < BLOCK_SIZE ==> #[trigger] ints[i] < 16384,
        0 <= k < BLOCK_SIZE,
    ensures
        unpacked_value(14, for_bytes(ints, 14) + post, k) == ints[k],
{
    let col = collapsed_lanes(ints, 16);
    lemma_packed14(col);
    let w = words14(col);
    let buf = words_le(w) + post;
    assert(for_bytes(ints, 14) == words_le(w));
    lemma_stitched_lane_bits(0, 0, 0, 0, 0, 0, 0);
    assert forall|j: int| 0 <= j < 64 implies #[trigger] col[j] & 0xc000c000 == 0 by {
        lemma_stitched_lane_bits(ints[j], ints[64 + j], 0, 0, 0, 0, 0);
    }
    assert forall|j: int| 0 <= j < 56 implies #[trigger] raw_words(buf, 0, 56)[j] == w[j] by {
        lemma_raw_words_of(w, post, j);
    }
    let raw = raw_words(buf, 0, 56);
    assert forall|t: int| 0 <= t < 56 implies (#[trigger] raw[t] >> 2u32) & 0x3fff3fff == col[t] && raw[t]
        & 0x00030003 == (col[56 + t / 7] >> ((12 - 2 * (t % 7)) as u32)) & 0x00030003 by {
        let z = col[56 + t / 7];
        let sh = (12 - 2 * (t % 7)) as u32;
        lemma_stitched_lane_bits(z, 0, 0, 0, 0, 0, sh);
        lemma_stitched_lane_bits(0, 0, 0, 0, col[t], (z >> sh) & 0x00030003, 0);
        assert(raw[t] == w[t]);
    }
    let m = k % 64;
    assert(packed_word(14, buf, m) == col[m]) by {
        if m < 56 {
            assert((raw[m] >> 2u32) & 0x3fff3fff == col[m]);
            assert(packed_word(14, buf, m) == shr_spec(raw[m], 2) & MASK16_14);
        } else {
            let g = m - 56;
            let t = 7 * g;
            let z = col[m];
            lemma_stitched_lane_bits(z, 0, 0, 0, 0, 0, 0);
            assert(raw[t + 0] & 0x00030003 == (z >> 12u32) & 0x00030003);
            assert(raw[t + 1] & 0x00030003 == (z >> 10u32) & 0x00030003);
            assert(raw[t + 2] & 0x00030003 == (z >> 8u32) & 0x00030003);
            assert(raw[t + 3] & 0x00030003 == (z >> 6u32) & 0x00030003);
            assert(raw[t + 4] & 0x00030003 == (z >> 4u32) & 0x00030003);
            assert(raw[t + 5] & 0x00030003 == (z >> 2u32) & 0x00030003);
            assert(raw[t + 6] & 0x00030003 == (z >> 0u32) & 0x00030003);
            assert(packed_word(14, buf, m) == decode14_tail(raw, g, 0));
        }
    }
    lemma_lanes(0, 0, 0, 0, ints[m], ints[64 + m]);
    assert(k < 64 ==> k == m);
    assert(64 <= k ==> k == 64 + m);
}

/// The 60 words of a 15-bit block of half-word lanes `col`: one shift
/// band, and in the low bit of each lane the last four lanes, fifteen
/// words each.
pub open spec fn words15(col: Seq<u32>) -> Seq<u32> {
    Seq::new(
        60,
        |t: int|
            (col[t] << 1u32) | ((col[60 + t / 15] >> ((14 - 1 * (t % 15)) as u32)) & prim_mask(16, 1)),
    )
}

/// Stitching the lanes from word `t` on leaves the words before it as
/// they were and ends with the words of [`words15`] from there.
proof fn lemma_stitch15_rest(col: Seq<u32>, tmp: Seq<u32>, t: int)
    requires
        0 <= t <= 60,
        tmp.len() == BLOCK_SIZE,
        forall|j: int| t <= j < 60 ==> #[trigger] tmp[j] == col[j] << 1u32,
    ensures
        ({
            let r = stitch_from(
                col,
                15,
                16,
                1,
                tmp,
                t,
                (15 - 1 * (t % 15)) as u32,
                60 + t / 15,
                (60 - t) as nat,
            );
            &&& r.len() == BLOCK_SIZE
            &&& forall|j: int| 0 <= j < t ==> #[trigger] r[j] == tmp[j]
            &&& forall|j: int| t <= j < 60 ==> #[trigger] r[j] == words15(col)[j]
        }),
    decreases 60 - t,
{
    if t < 60 {
        let rb = (15 - 1 * (t % 15)) as u32;
        let idx = 60 + t / 15;
        let n = tmp.update(t, tmp[t] | ((col[idx] >> ((rb - 1) as u32)) & prim_mask(16, 1)));
        assert(stitch_from(col, 15, 16, 1, tmp, t, rb, idx, (60 - t) as nat) == stitch_from(
            col,
            15,
            16,
            1,
            n,
            t + 1,
            (15 - 1 * ((t + 1) % 15)) as u32,
            60 + (t + 1) / 15,
            (60 - t - 1) as nat,
        ));
        lemma_stitch15_rest(col, n, t + 1);
        assert(((rb - 1) as u32) == ((14 - 1 * (t % 15)) as u32));
    } else {
        assert(stitch_from(col, 15, 16, 1, tmp, 60, 15, 64, 0) == tmp);
    }
}

/// A 15-bit block packs into [`words15`].
proof fn lemma_packed15(col: Seq<u32>)
    requires
        col.len() == BLOCK_SIZE,
    ensures
        packed_block(col, 15, 16) == words15(col),
{
    assert(16u32 / 15u32 == 1) by (nonlinear_arith);
    let s0 = band_words(col, 15, 16);
    assert forall|t: int| 0 <= t < 60 implies #[trigger] s0[t] == col[t] << 1u32 by {
        assert(band_or(col, 15, 16, t, 1) == col[t] << 1u32);
    }
    lemma_stitch15_rest(col, s0, 0);
    assert(packed_block(col, 15, 16) =~= words15(col));
}

/// At 15 bits, what `encode` writes `decode` reads back as the block,
/// whatever bytes follow it, when every value is below 32768.
#[verifier::spinoff_prover]
#[verifier::rlimit(80)]
proof fn lemma_width15_round_trip(ints: Seq<u32>, post: Seq<u8>, k: int)
    requires
        ints.len() == BLOCK_SIZE,
        forall|i: int| 0 <= i < BLOCK_SIZE ==> #[trigger] ints[i] < 32768,
        0 <= k < BLOCK_SIZE,
    ensures
        unpacked_value(15, for_bytes(ints, 15) + post, k) == ints[k],
{
    let col = collapsed_lanes(ints, 16);
    lemma_packed15(col);
    let w = words15(col);
    let buf = words_le(w) + post;
    assert(for_bytes(ints, 15) == words_le(w));
    lemma_stitched_lane_bits(0, 0, 0, 0, 0, 0, 0);
    assert forall|j: int| 0 <= j < 64 implies #[trigger] col[j] & 0x80008000 == 0 by {
        lemma_stitched_lane_bits(ints[j], ints[64 + j], 0, 0, 0, 0, 0);
    }
    assert forall|j: int| 0 <= j < 60 implies #[trigger] raw_words(buf, 0, 60)[j] == w[j] by {
        lemma_raw_words_of(w, post, j);
    }
    let raw = raw_words(buf, 0, 60);
    assert forall|t: int| 0 <= t < 60 implies (#[trigger] raw[t] >> 1u32) & 0x7fff7fff == col[t] && raw[t]
        & 0x00010001 == (col[60 + t / 15] >> ((14 - 1 * (t % 15)) as u32)) & 0x00010001 by {
        let z = col[60 + t / 15];
        let sh = (14 - 1 * (t % 15)) as u32;
        lemma_stitched_lane_bits(z, 0, 0, 0, 0, 0, sh);
        lemma_stitched_lane_bits(0, 0, 0, 0, col[t], (z >> sh) & 0x00010001, 0);
        assert(raw[t] == w[t]);
    }
    let m = k % 64;
    assert(packed_word(15, buf, m) == col[m]) by {
        if m < 60 {
            assert((raw[m] >> 1u32) & 0x7fff7fff == col[m]);
            assert(packed_word(15, buf, m) == shr_spec(raw[m], 1) & MASK16_15);
        } else {
            let g = m - 60;
            let t = 15 * g;
            let z = col[m];
            lemma_stitched_lane_bits(z, 0, 0, 0, 0, 0, 0);
            assert(raw[t + 0] & 0x00010001 == (z >> 14u32) & 0x00010001);
            assert(raw[t + 1] & 0x00010001 == (z >> 13u32) & 0x00010001);
            assert(raw[t + 2] & 0x00010001 == (z >> 12u32) & 0x00010001);
            assert(raw[t + 3] & 0x00010001 == (z >> 11u32) & 0x00010001);
            assert(raw[t + 4] & 0x00010001 == (z >> 10u32) & 0x00010001);
            assert(raw[t + 5] & 0x00010001 == (z >> 9u32) & 0x00010001);
            assert(raw[t + 6] & 0x00010001 == (z >> 8u32) & 0x00010001);
            assert(raw[t + 7] & 0x00010001 == (z >> 7u32) & 0x00010001);
            assert(raw[t + 8] & 0x00010001 == (z >> 6u32) & 0x00010001);
            assert(raw[t + 9] & 0x00010001 == (z >> 5u32) & 0x00010001);
            assert(raw[t + 10] & 0x00010001 == (z >> 4u32) & 0x00010001);
            assert(raw[t + 11] & 0x00010001 == (z >> 3u32) & 0x00010001);
            assert(raw[t + 12] & 0x00010001 == (z >> 2u32) & 0x00010001);
            assert(raw[t + 13] & 0x00010001 == (z >> 1u32) & 0x00010001);
            assert(raw[t + 14] & 0x00010001 == (z >> 0u32) & 0x00010001);
            assert(packed_word(15, buf, m) == decode15_tail(raw, g, 0));
        }
    }
    lemma_lanes(0, 0, 0, 0, ints[m], ints[64 + m]);
    assert(k < 64 ==> k == m);
    assert(64 <= k ==> k == 64 + m);
}

/// The 96 words of a 24-bit block: one shift band, and in the low byte of
/// each word the last 32 values, three words each.
pub open spec fn words24(ints: Seq<u32>) -> Seq<u32> {
    Seq::new(
        96,
        |t: int| (ints[t] << 8u32) | ((ints[96 + t / 3] >> ((16 - 8 * (t % 3)) as u32)) & prim_mask(32, 8)),
    )
}

/// Stitching the values from word `t` on leaves the words before it as
/// they were and ends with the words of [`words24`] from there.
proof fn lemma_stitch24_rest(ints: Seq<u32>, tmp: Seq<u32>, t: int)
    requires
        0 <= t <= 96,
        tmp.len() == BLOCK_SIZE,
        forall|j: int| t <= j < 96 ==> #[trigger] tmp[j] == ints[j] << 8u32,
    ensures
        ({
            let r = stitch_from(
                ints,
                24,
                32,
                8,
                tmp,
                t,
                (24 - 8 * (t % 3)) as u32,
                96 + t / 3,
                (96 - t) as nat,
            );
            &&& r.len() == BLOCK_SIZE
            &&& forall|j: int| 0 <= j < t ==> #[trigger] r[j] == tmp[j]
            &&& forall|j: int| t <= j < 96 ==> #[trigger] r[j] == words24(ints)[j]
        }),
    decreases 96 - t,
{
    if t < 96 {
        let rb = (24 - 8 * (t % 3)) as u32;
        let idx = 96 + t / 3;
        let n = tmp.update(t, tmp[t] | ((ints[idx] >> ((rb - 8) as u32)) & prim_mask(32, 8)));
        assert(stitch_from(ints, 24, 32, 8, tmp, t, rb, idx, (96 - t) as nat) == stitch_from(
            ints,
            24,
            32,
            8,
            n,
            t + 1,
            (24 - 8 * ((t + 1) % 3)) as u32,
            96 + (t + 1) / 3,
            (96 - t - 1) as nat,
        ));
        lemma_stitch24_rest(ints, n, t + 1);
        assert(((rb - 8) as u32) == ((16 - 8 * (t % 3)) as u32));
    } else {
        assert(stitch_from(ints, 24, 32, 8, tmp, 96, 24, 128, 0) == tmp);
    }
}

/// At 24 bits, what `encode` writes `decode` reads back as the block,
/// whatever bytes follow it, when every value is below 2^24.
#[verifier::spinoff_prover]
#[verifier::rlimit(80)]
proof fn lemma_width24_round_trip(ints: Seq<u32>, post: Seq<u8>, k: int)
    requires
        ints.len() == BLOCK_SIZE,
        forall|i: int| 0 <= i < BLOCK_SIZE ==> #[trigger] ints[i] < 0x1000000,
        0 <= k < BLOCK_SIZE,
    ensures
        unpacked_value(24, for_bytes(ints, 24) + post, k) == ints[k],
{
    assert(32u32 / 24u32 == 1) by (nonlinear_arith);
    let s0 = band_words(ints, 24, 32);
    assert forall|t: int| 0 <= t < 96 implies #[trigger] s0[t] == ints[t] << 8u32 by {
        assert(band_or(ints, 24, 32, t, 1) == ints[t] << 8u32);
    }
    lemma_stitch24_rest(ints, s0, 0);
    assert(packed_block(ints, 24, 32) =~= words24(ints));
    let w = words24(ints);
    let buf = words_le(w) + post;
    assert(for_bytes(ints, 24) == words_le(w));
    lemma_stitched_lane_bits(0, 0, 0, 0, 0, 0, 0);
    assert forall|j: int| 0 <= j < 96 implies #[trigger] raw_words(buf, 0, 96)[j] == w[j] by {
        lemma_raw_words_of(w, post, j);
    }
    let raw = raw_words(buf, 0, 96);
    assert forall|t: int| 0 <= t < 96 implies (#[trigger] raw[t] >> 8u32) & 0xffffff == ints[t] && raw[t]
        & 0xff == (ints[96 + t / 3] >> ((16 - 8 * (t % 3)) as u32)) & 0xff by {
        let z = ints[96 + t / 3];
        let sh = (16 - 8 * (t % 3)) as u32;
        lemma_stitched_lane_bits(z, 0, 0, 0, 0, 0, sh);
        lemma_stitched_lane_bits(0, 0, 0, 0, ints[t], (z >> sh) & 0xff, 0);
        assert(raw[t] == w[t]);
    }
    if k < 96 {
        assert((raw[k] >> 8u32) & 0xffffff == ints[k]);
        assert(packed_word(24, buf, k) == shr_spec(raw[k], 8) & low_mask(24));
    } else {
        let e = k - 96;
        let t = 3 * e;
        let z = ints[k];
        assert((e * 24) / 8 == t && (e * 24) % 8 == 0) by (nonlinear_arith)
            requires
                t == 3 * e,
        ;
        lemma_stitched_lane_bits(z, 0, 0, 0, 0, 0, 0);
        assert(raw[t] & 0xff == (z >> 16u32) & 0xff);
        assert(raw[t + 1] & 0xff == (z >> 8u32) & 0xff);
        assert(raw[t + 2] & 0xff == (z >> 0u32) & 0xff);
        reveal_with_fuel(gather, 4);
        assert(stitched(raw, 24, e) == gather(raw, 8, t + 1, 16, (raw[t] & low_mask(8)) << 16u32));
        assert(packed_word(24, buf, k) == stitched(raw, 24, e));
    }
}

/// The 112 words of a 28-bit block: one shift band, and in the low
/// four bits of each word the last 16 values, seven words each.
pub open spec fn words28(ints: Seq<u32>) -> Seq<u32> {
    Seq::new(
        112,
        |t: int| (ints[t] << 4u32) | ((ints[112 + t / 7] >> ((24 - 4 * (t % 7)) as u32)) & prim_mask(32, 4)),
    )
}

/// Stitching the values from word `t` on leaves the words before it as
/// they were and ends with the words of [`words28`] from there.
proof fn lemma_stitch28_rest(ints: Seq<u32>, tmp: Seq<u32>, t: int)
    requires
        0 <= t <= 112,
        tmp.len() == BLOCK_SIZE,
        forall|j: int| t <= j < 112 ==> #[trigger] tmp[j] == ints[j] << 4u32,
    ensures
        ({
            let r = stitch_from(
                ints,
                28,
                32,
                4,
                tmp,
                t,
                (28 - 4 * (t % 7)) as u32,
                112 + t / 7,
                (112 - t) as nat,
            );
            &&& r.len() == BLOCK_SIZE
            &&& forall|j: int| 0 <= j < t ==> #[trigger] r[j] == tmp[j]
            &&& forall|j: int| t <= j < 112 ==> #[trigger] r[j] == words28(ints)[j]
        }),
    decreases 112 - t,
{
    if t < 112 {
        let rb = (28 - 4 * (t % 7)) as u32;
        let idx = 112 + t / 7;
        let n = tmp.update(t, tmp[t] | ((ints[idx] >> ((rb - 4) as u32)) & prim_mask(32, 4)));
        assert(stitch_from(ints, 28, 32, 4, tmp, t, rb, idx, (112 - t) as nat) == stitch_from(
            ints,
            28,
            32,
            4,
            n,
            t + 1,
            (28 - 4 * ((t + 1) % 7)) as u32,
            112 + (t + 1) / 7,
            (112 - t - 1) as nat,
        ));
        lemma_stitch28_rest(ints, n, t + 1);
        assert(((rb - 4) as u32) == ((24 - 4 * (t % 7)) as u32));
    } else {
        assert(stitch_from(ints, 28, 32, 4, tmp, 112, 28, 128, 0) == tmp);
    }
}

/// At 28 bits, what `encode` writes `decode` reads back as the block,
/// whatever bytes follow it, when every value is below 2^28.
#[verifier::spinoff_prover]
#[verifier::rlimit(80)]
proof fn lemma_width28_round_trip(ints: Seq<u32>, post: Seq<u8>, k: int)
    requires
        ints.len() == BLOCK_SIZE,
        forall|i: int| 0 <= i < BLOCK_SIZE ==> #[trigger] ints[i] < 0x10000000,
        0 <= k < BLOCK_SIZE,
    ensures
        unpacked_value(28, for_bytes(ints, 28) + post, k) == ints[k],
{
    assert(32u32 / 28u32 == 1) by (nonlinear_arith);
    let s0 = band_words(ints, 28, 32);
    assert forall|t: int| 0 <= t < 112 implies #[trigger] s0[t] == ints[t] << 4u32 by {
        assert(band_or(ints, 28, 32, t, 1) == ints[t] << 4u32);
    }
    lemma_stitch28_rest(ints, s0, 0);
    assert(packed_block(ints, 28, 32) =~= words28(ints));
    let w = words28(ints);
    let buf = words_le(w) + post;
    assert(for_bytes(ints, 28) == words_le(w));
    lemma_stitched_lane_bits(0, 0, 0, 0, 0, 0, 0);
    assert forall|j: int| 0 <= j < 112 implies #[trigger] raw_words(buf, 0, 112)[j] == w[j] by {
        lemma_raw_words_of(w, post, j);
    }
    let raw = raw_words(buf, 0, 112);
    assert forall|t: int| 0 <= t < 112 implies (#[trigger] raw[t] >> 4u32) & 0xfffffff == ints[t] && raw[t]
        & 0xf == (ints[112 + t / 7] >> ((24 - 4 * (t % 7)) as u32)) & 0xf by {
        let z = ints[112 + t / 7];
        let sh = (24 - 4 * (t % 7)) as u32;
        lemma_stitched_lane_bits(z, 0, 0, 0, 0, 0, sh);
        lemma_stitched_lane_bits(0, 0, 0, 0, ints[t], (z >> sh) & 0xf, 0);
        assert(raw[t] == w[t]);
    }
    if k < 112 {
        assert((raw[k] >> 4u32) & 0xfffffff == ints[k]);
        assert(packed_word(28, buf, k) == shr_spec(raw[k], 4) & low_mask(28));
    } else {
        let e = k - 112;
        let t = 7 * e;
        let z = ints[k];
        assert((e * 28) / 4 == t && (e * 28) % 4 == 0) by (nonlinear_arith)
            requires
                t == 7 * e,
        ;
        lemma_stitched_lane_bits(z, 0, 0, 0, 0, 0, 0);
        assert(raw[t + 0] & 0xf == (z >> 24u32) & 0xf);
        assert(raw[t + 1] & 0xf == (z >> 20u32) & 0xf);
        assert(raw[t + 2] & 0xf == (z >> 16u32) & 0xf);
        assert(raw[t + 3] & 0xf == (z >> 12u32) & 0xf);
        assert(raw[t + 4] & 0xf == (z >> 8u32) & 0xf);
        assert(raw[t + 5] & 0xf == (z >> 4u32) & 0xf);
        assert(raw[t + 6] & 0xf == (z >> 0u32) & 0xf);
        reveal_with_fuel(gather, 8);
        assert(stitched(raw, 28, e) == gather(raw, 4, t + 1, 24, (raw[t] & low_mask(4)) << 24u32));
        assert(packed_word(28, buf, k) == stitched(raw, 28, e));
    }
}

/// The 120 words of a 30-bit block: one shift band, and in the low
/// two bits of each word the last 8 values, fifteen words each.
pub open spec fn words30(ints: Seq<u32>) -> Seq<u32> {
    Seq::new(
        120,
        |t: int| (ints[t] << 2u32) | ((ints[120 + t / 15] >> ((28 - 2 * (t % 15)) as u32)) & prim_mask(32, 2)),
    )
}

/// Stitching the values from word `t` on leaves the words before it as
/// they were and ends with the words of [`words30`] from there.
proof fn lemma_stitch30_rest(ints: Seq<u32>, tmp: Seq<u32>, t: int)
    requires
        0 <= t <= 120,
        tmp.len() == BLOCK_SIZE,
        forall|j: int| t <= j < 120 ==> #[trigger] tmp[j] == ints[j] << 2u32,
    ensures
        ({
            let r = stitch_from(
                ints,
                30,
                32,
                2,
                tmp,
                t,
                (30 - 2 * (t % 15)) as u32,
                120 + t / 15,
                (120 - t) as nat,
            );
            &&& r.len() == BLOCK_SIZE
            &&& forall|j: int| 0 <= j < t ==> #[trigger] r[j] == tmp[j]
            &&& forall|j: int| t <= j < 120 ==> #[trigger] r[j] == words30(ints)[j]
        }),
    decreases 120 - t,
{
    if t < 120 {
        let rb = (30 - 2 * (t % 15)) as u32;
        let idx = 120 + t / 15;
        let n = tmp.update(t, tmp[t] | ((ints[idx] >> ((rb - 2) as u32)) & prim_mask(32, 2)));
        assert(stitch_from(ints, 30, 32, 2, tmp, t, rb, idx, (120 - t) as nat) == stitch_from(
            ints,
            30,
            32,
            2,
            n,
            t + 1,
            (30 - 2 * ((t + 1) % 15)) as u32,
            120 + (t + 1) / 15,
            (120 - t - 1) as nat,
        ));
        lemma_stitch30_rest(ints, n, t + 1);
        assert(((rb - 2) as u32) == ((28 - 2 * (t % 15)) as u32));
    } else {
        assert(stitch_from(ints, 30, 32, 2, tmp, 120, 30, 128, 0) == tmp);
    }
}

/// At 30 bits, what `encode` writes `decode` reads back as the block,
/// whatever bytes follow it, when every value is below 2^30.
#[verifier::spinoff_prover]
#[verifier::rlimit(80)]
proof fn lemma_width30_round_trip(ints: Seq<u32>, post: Seq<u8>, k: int)
    requires
        ints.len() == BLOCK_SIZE,
        forall|i: int| 0 <= i < BLOCK_SIZE ==> #[trigger] ints[i] < 0x40000000,
        0 <= k < BLOCK_SIZE,
    ensures
        unpacked_value(30, for_bytes(ints, 30) + post, k) == ints[k],
{
    assert(32u32 / 30u32 == 1) by (nonlinear_arith);
    let s0 = band_words(ints, 30, 32);
    assert forall|t: int| 0 <= t < 120 implies #[trigger] s0[t] == ints[t] << 2u32 by {
        assert(band_or(ints, 30, 32, t, 1) == ints[t] << 2u32);
    }
    lemma_stitch30_rest(ints, s0, 0);
    assert(packed_block(ints, 30, 32) =~= words30(ints));
    let w = words30(ints);
    let buf = words_le(w) + post;
    assert(for_bytes(ints, 30) == words_le(w));
    lemma_stitched_lane_bits(0, 0, 0, 0, 0, 0, 0);
    assert forall|j: int| 0 <= j < 120 implies #[trigger] raw_words(buf, 0, 120)[j] == w[j] by {
        lemma_raw_words_of(w, post, j);
    }
    let raw = raw_words(buf, 0, 120);
    assert forall|t: int| 0 <= t < 120 implies (#[trigger] raw[t] >> 2u32) & 0x3fffffff == ints[t] && raw[t]
        & 0x3 == (ints[120 + t / 15] >> ((28 - 2 * (t % 15)) as u32)) & 0x3 by {
        let z = ints[120 + t / 15];
        let sh = (28 - 2 * (t % 15)) as u32;
        lemma_stitched_lane_bits(z, 0, 0, 0, 0, 0, sh);
        lemma_stitched_lane_bits(0, 0, 0, 0, ints[t], (z >> sh) & 0x3, 0);
        assert(raw[t] == w[t]);
    }
    if k < 120 {
        assert((raw[k] >> 2u32) & 0x3fffffff == ints[k]);
        assert(packed_word(30, buf, k) == shr_spec(raw[k], 2) & low_mask(30));
    } else {
        let e = k - 120;
        let t = 15 * e;
        let z = ints[k];
        assert((e * 30) / 2 == t && (e * 30) % 2 == 0) by (nonlinear_arith)
            requires
                t == 15 * e,
        ;
        lemma_stitched_lane_bits(z, 0, 0, 0, 0, 0, 0);
        assert(raw[t + 0] & 0x3 == (z >> 28u32) & 0x3);
        assert(raw[t + 1] & 0x3 == (z >> 26u32) & 0x3);
        assert(raw[t + 2] & 0x3 == (z >> 24u32) & 0x3);
        assert(raw[t + 3] & 0x3 == (z >> 22u32) & 0x3);
        assert(raw[t + 4] & 0x3 == (z >> 20u32) & 0x3);
        assert(raw[t + 5] & 0x3 == (z >> 18u32) & 0x3);
        assert(raw[t + 6] & 0x3 == (z >> 16u32) & 0x3);
        assert(raw[t + 7] & 0x3 == (z >> 14u32) & 0x3);
        assert(raw[t + 8] & 0x3 == (z >> 12u32) & 0x3);
        assert(raw[t + 9] & 0x3 == (z >> 10u32) & 0x3);
        assert(raw[t + 10] & 0x3 == (z >> 8u32) & 0x3);
        assert(raw[t + 11] & 0x3 == (z >> 6u32) & 0x3);
        assert(raw[t + 12] & 0x3 == (z >> 4u32) & 0x3);
        assert(raw[t + 13] & 0x3 == (z >> 2u32) & 0x3);
        assert(raw[t + 14] & 0x3 == (z >> 0u32) & 0x3);
        reveal_with_fuel(gather, 16);
        assert(stitched(raw, 30, e) == gather(raw, 2, t + 1, 28, (raw[t] & low_mask(2)) << 28u32));
        assert(packed_word(30, buf, k) == stitched(raw, 30, e));
    }
}

/// The 124 words of a 31-bit block: one shift band, and in the low bit
/// of each word the last four values, 31 words each.
pub open spec fn words31(ints: Seq<u32>) -> Seq<u32> {
    Seq::new(
        124,
        |t: int| (ints[t] << 1u32) | ((ints[124 + t / 31] >> ((30 - t % 31) as u32)) & prim_mask(32, 1)),
    )
}

/// Stitching the values from word `t` on leaves the words before it as
/// they were and ends with the words of [`words31`] from there.
proof fn lemma_stitch31_rest(ints: Seq<u32>, tmp: Seq<u32>, t: int)
    requires
        0 <= t <= 124,
        tmp.len() == BLOCK_SIZE,
        forall|j: int| t <= j < 124 ==> #[trigger] tmp[j] == ints[j] << 1u32,
    ensures
        ({
            let r = stitch_from(
                ints,
                31,
                32,
                1,
                tmp,
                t,
                (31 - t % 31) as u32,
                124 + t / 31,
                (124 - t) as nat,
            );
            &&& r.len() == BLOCK_SIZE
            &&& forall|j: int| 0 <= j < t ==> #[trigger] r[j] == tmp[j]
            &&& forall|j: int| t <= j < 124 ==> #[trigger] r[j] == words31(ints)[j]
        }),
    decreases 124 - t,
{
    if t < 124 {
        let rb = (31 - t % 31) as u32;
        let idx = 124 + t / 31;
        let n = tmp.update(t, tmp[t] | ((ints[idx] >> ((rb - 1) as u32)) & prim_mask(32, 1)));
        assert(stitch_from(ints, 31, 32, 1, tmp, t, rb, idx, (124 - t) as nat) == stitch_from(
            ints,
            31,
            32,
            1,
            n,
            t + 1,
            (31 - (t + 1) % 31) as u32,
            124 + (t + 1) / 31,
            (124 - t - 1) as nat,
        ));
        lemma_stitch31_rest(ints, n, t + 1);
        assert(((rb - 1) as u32) == ((30 - t % 31) as u32));
    } else {
        assert(stitch_from(ints, 31, 32, 1, tmp, 124, 31, 128, 0) == tmp);
    }
}

/// At 31 bits, what `encode` writes `decode` reads back as the block,
/// whatever bytes follow it, when every value is below 2^31.
#[verifier::spinoff_prover]
#[verifier::rlimit(80)]
proof fn lemma_width31_round_trip(ints: Seq<u32>, post: Seq<u8>, k: int)
    requires
        ints.len() == BLOCK_SIZE,
        forall|i: int| 0 <= i < BLOCK_SIZE ==> #[trigger] ints[i] < 0x80000000,
        0 <= k < BLOCK_SIZE,
    ensures
        unpacked_value(31, for_bytes(ints, 31) + post, k) == ints[k],
{
    assert(32u32 / 31u32 == 1) by (nonlinear_arith);
    let s0 = band_words(ints, 31, 32);
    assert forall|t: int| 0 <= t < 124 implies #[trigger] s0[t] == ints[t] << 1u32 by {
        assert(band_or(ints, 31, 32, t, 1) == ints[t] << 1u32);
    }
    lemma_stitch31_rest(ints, s0, 0);
    assert(packed_block(ints, 31, 32) =~= words31(ints));
    let w = words31(ints);
    let buf = words_le(w) + post;
    assert(for_bytes(ints, 31) == words_le(w));
    lemma_stitched_lane_bits(0, 0, 0, 0, 0, 0, 0);
    assert forall|j: int| 0 <= j < 124 implies #[trigger] raw_words(buf, 0, 124)[j] == w[j] by {
        lemma_raw_words_of(w, post, j);
    }
    let raw = raw_words(buf, 0, 124);
    assert forall|t: int| 0 <= t < 124 implies (#[trigger] raw[t] >> 1u32) & 0x7fffffff == ints[t] && raw[t]
        & 0x1 == (ints[124 + t / 31] >> ((30 - t % 31) as u32)) & 0x1 by {
        let z = ints[124 + t / 31];
        let sh = (30 - t % 31) as u32;
        lemma_stitched_lane_bits(z, 0, 0, 0, 0, 0, sh);
        lemma_stitched_lane_bits(0, 0, 0, 0, ints[t], (z >> sh) & 0x1, 0);
        assert(raw[t] == w[t]);
    }
    if k < 124 {
        assert((raw[k] >> 1u32) & 0x7fffffff == ints[k]);
        assert(packed_word(31, buf, k) == shr_spec(raw[k], 1) & low_mask(31));
    } else {
        let e = k - 124;
        let t = 31 * e;
        let z = ints[k];
        assert((e * 31) / 1 == t && (e * 31) % 1 == 0) by (nonlinear_arith)
            requires
                t == 31 * e,
        ;
        lemma_stitched_lane_bits(z, 0, 0, 0, 0, 0, 0);
        assert(raw[t + 0] & 0x1 == (z >> 30u32) & 0x1);
        assert(raw[t + 1] & 0x1 == (z >> 29u32) & 0x1);
        assert(raw[t + 2] & 0x1 == (z >> 28u32) & 0x1);
        assert(raw[t + 3] & 0x1 == (z >> 27u32) & 0x1);
        assert(raw[t + 4] & 0x1 == (z >> 26u32) & 0x1);
        assert(raw[t + 5] & 0x1 == (z >> 25u32) & 0x1);
        assert(raw[t + 6] & 0x1 == (z >> 24u32) & 0x1);
        assert(raw[t + 7] & 0x1 == (z >> 23u32) & 0x1);
        assert(raw[t + 8] & 0x1 == (z >> 22u32) & 0x1);
        assert(raw[t + 9] & 0x1 == (z >> 21u32) & 0x1);
        assert(raw[t + 10] & 0x1 == (z >> 20u32) & 0x1);
        assert(raw[t + 11] & 0x1 == (z >> 19u32) & 0x1);
        assert(raw[t + 12] & 0x1 == (z >> 18u32) & 0x1);
        assert(raw[t + 13] & 0x1 == (z >> 17u32) & 0x1);
        assert(raw[t + 14] & 0x1 == (z >> 16u32) & 0x1);
        assert(raw[t + 15] & 0x1 == (z >> 15u32) & 0x1);
        assert(raw[t + 16] & 0x1 == (z >> 14u32) & 0x1);
        assert(raw[t + 17] & 0x1 == (z >> 13u32) & 0x1);
        assert(raw[t + 18] & 0x1 == (z >> 12u32) & 0x1);
        assert(raw[t + 19] & 0x1 == (z >> 11u32) & 0x1);
        assert(raw[t + 20] & 0x1 == (z >> 10u32) & 0x1);
        assert(raw[t + 21] & 0x1 == (z >> 9u32) & 0x1);
        assert(raw[t + 22] & 0x1 == (z >> 8u32) & 0x1);
        assert(raw[t + 23] & 0x1 == (z >> 7u32) & 0x1);
        assert(raw[t + 24] & 0x1 == (z >> 6u32) & 0x1);
        assert(raw[t + 25] & 0x1 == (z >> 5u32) & 0x1);
        assert(raw[t + 26] & 0x1 == (z >> 4u32) & 0x1);
        assert(raw[t + 27] & 0x1 == (z >> 3u32) & 0x1);
        assert(raw[t + 28] & 0x1 == (z >> 2u32) & 0x1);
        assert(raw[t + 29] & 0x1 == (z >> 1u32) & 0x1);
        assert(raw[t + 30] & 0x1 == (z >> 0u32) & 0x1);
        reveal_with_fuel(gather, 32);
        assert(stitched(raw, 31, e) == gather(raw, 1, t + 1, 30, (raw[t] & low_mask(1)) << 30u32));
        assert(packed_word(31, buf, k) == stitched(raw, 31, e));
    }
}


/// When the lane width is a multiple of the width, nothing is left to
/// stitch: the packed block is its shift bands.
proof fn lemma_packed_block_bands(vals: Seq<u32>, bpv: u32, p: u32)
    requires
        p == 8 || p == 16 || p == 32,
        1 <= bpv <= p,
        p % bpv == 0,
        vals.len() == BLOCK_SIZE,
    ensures
        packed_block(vals, bpv, p) == Seq::new(
            (4 * bpv) as nat,
            |t: int| band_or(vals, bpv, p, t, (p / bpv) as nat),
        ),
{
    let nb = p / bpv;
    vstd::arithmetic::div_mod::lemma_fundamental_div_mod(p as int, bpv as int);
    assert(nb * bpv == p) by (nonlinear_arith)
        requires
            p == bpv * nb + p % bpv,
            p % bpv == 0,
    ;
    assert(4 * nb * bpv == 4 * p) by (nonlinear_arith)
        requires
            nb * bpv == p,
    ;
    assert(4 * bpv <= 128) by (nonlinear_arith)
        requires
            bpv <= p,
            p <= 32,
    ;
    assert(packed_block(vals, bpv, p) =~= Seq::new(
        (4 * bpv) as nat,
        |t: int| band_or(vals, bpv, p, t, (p / bpv) as nat),
    ));
}

/// At 1 to 8, 12, 14 to 16, 24, 28 and 30 to 32 bits, `decode` reads
/// back from what `encode` writes the block it was given, whatever bytes
/// follow, when every value fits.
pub proof fn lemma_for_round_trip(bpv: u32, ints: Seq<u32>, post: Seq<u8>, k: int)
    requires
        1 <= bpv <= 8 || bpv == 12 || 14 <= bpv <= 16 || bpv == 24 || bpv == 28 || 30 <= bpv <= 32,
        ints.len() == BLOCK_SIZE,
        forall|i: int|
            0 <= i < BLOCK_SIZE ==> (#[trigger] ints[i] as nat) < vstd::arithmetic::power2::pow2(
                bpv as nat,
            ),
        0 <= k < BLOCK_SIZE,
    ensures
        unpacked_value(bpv, for_bytes(ints, bpv) + post, k) == ints[k],
{
    vstd::arithmetic::power2::lemma2_to64();
    if bpv == 3 {
        assert forall|i: int| 0 <= i < BLOCK_SIZE implies #[trigger] ints[i] < 8 by {
            assert((ints[i] as nat) < vstd::arithmetic::power2::pow2(3));
        }
        lemma_width3_round_trip(ints, post, k);
    } else if bpv == 5 {
        assert forall|i: int| 0 <= i < BLOCK_SIZE implies #[trigger] ints[i] < 32 by {
            assert((ints[i] as nat) < vstd::arithmetic::power2::pow2(5));
        }
        lemma_width5_round_trip(ints, post, k);
    } else if bpv == 6 {
        assert forall|i: int| 0 <= i < BLOCK_SIZE implies #[trigger] ints[i] < 64 by {
            assert((ints[i] as nat) < vstd::arithmetic::power2::pow2(6));
        }
        lemma_width6_round_trip(ints, post, k);
    } else if bpv == 7 {
        assert forall|i: int| 0 <= i < BLOCK_SIZE implies #[trigger] ints[i] < 128 by {
            assert((ints[i] as nat) < vstd::arithmetic::power2::pow2(7));
        }
        lemma_width7_round_trip(ints, post, k);
    } else if bpv == 12 {
        assert forall|i: int| 0 <= i < BLOCK_SIZE implies #[trigger] ints[i] < 4096 by {
            assert((ints[i] as nat) < vstd::arithmetic::power2::pow2(12));
        }
        lemma_width12_round_trip(ints, post, k);
    } else if bpv == 14 {
        assert forall|i: int| 0 <= i < BLOCK_SIZE implies #[trigger] ints[i] < 16384 by {
            assert((ints[i] as nat) < vstd::arithmetic::power2::pow2(14));
        }
        lemma_width14_round_trip(ints, post, k);
    } else if bpv == 15 {
        assert forall|i: int| 0 <= i < BLOCK_SIZE implies #[trigger] ints[i] < 32768 by {
            assert((ints[i] as nat) < vstd::arithmetic::power2::pow2(15));
        }
        lemma_width15_round_trip(ints, post, k);
    } else if bpv == 24 {
        assert forall|i: int| 0 <= i < BLOCK_SIZE implies #[trigger] ints[i] < 0x1000000 by {
            assert((ints[i] as nat) < vstd::arithmetic::power2::pow2(24));
        }
        lemma_width24_round_trip(ints, post, k);
    } else if bpv == 28 {
        assert forall|i: int| 0 <= i < BLOCK_SIZE implies #[trigger] ints[i] < 0x10000000 by {
            assert((ints[i] as nat) < vstd::arithmetic::power2::pow2(28));
        }
        lemma_width28_round_trip(ints, post, k);
    } else if bpv == 30 {
        assert forall|i: int| 0 <= i < BLOCK_SIZE implies #[trigger] ints[i] < 0x40000000 by {
            assert((ints[i] as nat) < vstd::arithmetic::power2::pow2(30));
        }
        lemma_width30_round_trip(ints, post, k);
    } else if bpv == 31 {
        assert forall|i: int| 0 <= i < BLOCK_SIZE implies #[trigger] ints[i] < 0x80000000 by {
            assert((ints[i] as nat) < vstd::arithmetic::power2::pow2(31));
        }
        lemma_width31_round_trip(ints, post, k);
    } else {
        lemma_lane_multiple_round_trip(bpv, ints, post, k);
    }
}

/// Up to 8 bits, the words `decode` fills before it spreads the lanes are
/// the byte lanes of the block `encode` was given.
pub proof fn lemma_packed_lanes(bpv: u32, ints: Seq<u32>, post: Seq<u8>, m: int)
    requires
        1 <= bpv <= 8,
        ints.len() == BLOCK_SIZE,
        forall|i: int|
            0 <= i < BLOCK_SIZE ==> (#[trigger] ints[i] as nat) < vstd::arithmetic::power2::pow2(
                bpv as nat,
            ),
        0 <= m < 32,
    ensures
        packed_word(bpv, for_bytes(ints, bpv) + post, m) == lanes8(ints)[m],
{
    let buf = for_bytes(ints, bpv) + post;
    let w = packed_word(bpv, buf, m);
    lemma_for_round_trip(bpv, ints, post, m);
    lemma_for_round_trip(bpv, ints, post, 32 + m);
    lemma_for_round_trip(bpv, ints, post, 64 + m);
    lemma_for_round_trip(bpv, ints, post, 96 + m);
    assert((32 + m) % 32 == m && (64 + m) % 32 == m && (96 + m) % 32 == m);
    lemma_stitched_lane_bits(0, 0, 0, 0, w, 0, 0);
}

/// The round trip at the widths that divide the lane width.
#[verifier::spinoff_prover]
proof fn lemma_lane_multiple_round_trip(bpv: u32, ints: Seq<u32>, post: Seq<u8>, k: int)
    requires
        bpv == 1 || bpv == 2 || bpv == 4 || bpv == 8 || bpv == 16 || bpv == 32,
        ints.len() == BLOCK_SIZE,
        forall|i: int|
            0 <= i < BLOCK_SIZE ==> (#[trigger] ints[i] as nat) < vstd::arithmetic::power2::pow2(
                bpv as nat,
            ),
        0 <= k < BLOCK_SIZE,
    ensures
        unpacked_value(bpv, for_bytes(ints, bpv) + post, k) == ints[k],
{
    vstd::arithmetic::power2::lemma2_to64();
    let p = for_primitive(bpv);
    let col = collapsed_lanes(ints, p);
    assert(p % bpv == 0) by (nonlinear_arith)
        requires
            bpv == 1 || bpv == 2 || bpv == 4 || bpv == 8 || bpv == 16 || bpv == 32,
            p == (if bpv <= 8 {
                8u32
            } else if bpv <= 16 {
                16u32
            } else {
                32u32
            }),
    ;
    lemma_packed_block_bands(col, bpv, p);
    if bpv == 1 || bpv == 2 || bpv == 4 {
        if bpv == 1 {
            assert(8u32 / bpv == 8u32) by (nonlinear_arith)
                requires
                    bpv == 1,
            ;
        } else if bpv == 2 {
            assert(8u32 / bpv == 4u32) by (nonlinear_arith)
                requires
                    bpv == 2,
            ;
        } else {
            assert(8u32 / bpv == 2u32) by (nonlinear_arith)
                requires
                    bpv == 4,
            ;
        }
        assert(4 * bpv * ((8u32 / bpv) as nat) == 32);
        assert forall|i: int| 0 <= i < 32 implies #[trigger] col[i] == lanes8(ints)[i] by {}
        assert forall|t: int| 0 <= t < 4 * bpv implies #[trigger] band_or(col, bpv, 8, t, (8u32 / bpv) as nat)
            == band_or(lanes8(ints), bpv, 8, t, (8u32 / bpv) as nat) by {
            assert((8u32 / bpv) as nat >= 1) by (nonlinear_arith)
                requires
                    1 <= bpv <= 8,
            ;
            lemma_band_or_agree(col, lanes8(ints), bpv, 8, t, (8u32 / bpv) as nat);
        }
        assert(packed_block(col, bpv, p) =~= narrow_words(ints, bpv));
        lemma_narrow_round_trip(bpv, ints, post, k);
    } else if bpv == 8 {
        assert forall|t: int| 0 <= t < 32 implies #[trigger] band_or(col, 8, 8, t, 1) == lanes8(ints)[t] by {
            vstd::bits::lemma_u32_shl_is_mul(col[t], 0);
        }
        assert(8u32 / bpv == 1u32) by (nonlinear_arith)
            requires
                bpv == 8,
        ;
        assert((8u32 / bpv) as nat == 1);
        assert(packed_block(col, bpv, p) =~= lanes8(ints));
        assert(for_bytes(ints, bpv) == whole_lane_bytes(bpv, ints));
        lemma_whole_lane_round_trip(bpv, ints, post, k);
    } else if bpv == 16 {
        assert forall|t: int| 0 <= t < 64 implies #[trigger] band_or(col, 16, 16, t, 1) == halves16(ints)[t] by {
            vstd::bits::lemma_u32_shl_is_mul(col[t], 0);
        }
        assert((16u32 / bpv) as nat == 1);
        assert(packed_block(col, bpv, p) =~= halves16(ints));
        assert(for_bytes(ints, bpv) == whole_lane_bytes(bpv, ints));
        lemma_whole_lane_round_trip(bpv, ints, post, k);
    } else {
        assert forall|t: int| 0 <= t < 128 implies #[trigger] band_or(col, 32, 32, t, 1) == ints[t] by {
            vstd::bits::lemma_u32_shl_is_mul(col[t], 0);
        }
        assert((32u32 / bpv) as nat == 1);
        assert(packed_block(col, bpv, p) =~= ints);
        assert(for_bytes(ints, bpv) == whole_lane_bytes(bpv, ints));
        lemma_whole_lane_round_trip(bpv, ints, post, k);
    }
}

/// Spread the byte lanes of the packed words of width `bpv`.
fn spread_bytes(out: &mut [u32; BLOCK_SIZE], Ghost(bpv): Ghost<u32>, Ghost(buf): Ghost<Seq<u8>>)
    requires
        bpv <= 8,
        forall|i: int| 0 <= i < 32 ==> #[trigger] old(out)@[i] == packed_word(bpv, buf, i),
    ensures
        forall|k: int| 0 <= k < BLOCK_SIZE ==> #[trigger] final(out)@[k] == unpacked_value(bpv, buf, k),
{
    let ghost mid = out@;
    expand8(out);
    proof {
        lemma_spread8(mid, out@, bpv, buf);
    }
}

/// Spread the half-word lanes of the packed words of width `bpv`.
fn spread_halves(out: &mut [u32; BLOCK_SIZE], Ghost(bpv): Ghost<u32>, Ghost(buf): Ghost<Seq<u8>>)
    requires
        9 <= bpv <= 16,
        forall|i: int| 0 <= i < 64 ==> #[trigger] old(out)@[i] == packed_word(bpv, buf, i),
    ensures
        forall|k: int| 0 <= k < BLOCK_SIZE ==> #[trigger] final(out)@[k] == unpacked_value(bpv, buf, k),
{
    let ghost mid = out@;
    expand16(out);
    proof {
        lemma_spread16(mid, out@, bpv, buf);
    }
}

/// Decode 128 integers packed at `bpv` bits. Reads past the end of `input`
/// see zeros; extra input is ignored.
#[verifier::spinoff_prover]
pub fn decode(bpv: u32, input: &[u8], out: &mut [u32; BLOCK_SIZE])
    requires
        1 <= bpv <= 32,
    ensures
        forall|k: int|
            0 <= k < BLOCK_SIZE ==> #[trigger] final(out)@[k] == unpacked_value(bpv, input@, k),
{
    let mut r = Reader::new(input);
    let mut tmp: [u32; BLOCK_SIZE] = [0u32; BLOCK_SIZE];
    let ghost before = out@;
    match bpv {
        1 => {
            decode1(&mut r, out);
            proof {
                assert forall|k: int| 0 <= k < 32 implies #[trigger] out@[k] == packed_word(bpv, input@, k) by {
                    assert(out@[k] == split_at(before, raw_words(input@, 0, 4), 4, 7, 1, MASK8_1, 28, MASK8_1, k));
                }
            }
            spread_bytes(out, Ghost(bpv), Ghost(input@));
        },
        2 => {
            decode2(&mut r, out);
            proof {
                assert forall|k: int| 0 <= k < 32 implies #[trigger] out@[k] == packed_word(bpv, input@, k) by {
                    assert(out@[k] == split_at(before, raw_words(input@, 0, 8), 8, 6, 2, MASK8_2, 24, MASK8_2, k));
                }
            }
            spread_bytes(out, Ghost(bpv), Ghost(input@));
        },
        3 => {
            decode3(&mut r, &mut tmp, out);
            proof {
                assert forall|k: int| 0 <= k < 32 implies #[trigger] out@[k] == packed_word(bpv, input@, k) by {
                    if k >= 24 {
                        let kk = (k - 24) / 2;
                        let j = (k - 24) % 2;
                        assert(24 + 2 * kk + j == k);
                        assert(out@[24 + 2 * kk + j] == decode3_tail(raw_words(input@, 0, 12), kk, j));
                    } else {
                        assert(out@[k] == band(raw_words(input@, 0, 12), 12, 5, 3, MASK8_3, k));
                    }
                }
            }
            spread_bytes(out, Ghost(bpv), Ghost(input@));
        },
        4 => {
            decode4(&mut r, out);
            proof {
                assert forall|k: int| 0 <= k < 32 implies #[trigger] out@[k] == packed_word(bpv, input@, k) by {
                    assert(out@[k] == split_at(before, raw_words(input@, 0, 16), 16, 4, 4, MASK8_4, 16, MASK8_4, k));
                }
            }
            spread_bytes(out, Ghost(bpv), Ghost(input@));
        },
        5 => {
            decode5(&mut r, &mut tmp, out);
            proof {
                assert forall|k: int| 0 <= k < 32 implies #[trigger] out@[k] == packed_word(bpv, input@, k) by {
                    if k >= 20 {
                        let kk = (k - 20) / 3;
                        let j = (k - 20) % 3;
                        assert(20 + 3 * kk + j == k);
                        assert(out@[20 + 3 * kk + j] == decode5_tail(raw_words(input@, 0, 20), kk, j));
                    } else {
                        assert(out@[k] == band(raw_words(input@, 0, 20), 20, 3, 5, MASK8_5, k));
                    }
                }
            }
            spread_bytes(out, Ghost(bpv), Ghost(input@));
        },
        6 => {
            decode6(&mut r, &mut tmp, out);
            proof {
                assert forall|k: int| 0 <= k < 32 implies #[trigger] out@[k] == packed_word(bpv, input@, k) by {
                    if k >= 24 {
                        assert(out@[24 + 1 * (k - 24) + 0] == decode6_tail(raw_words(input@, 0, 24), k - 24, 0));
                    } else {
                        assert(out@[k] == band(raw_words(input@, 0, 24), 24, 2, 6, MASK8_6, k));
                    }
                }
            }
            spread_bytes(out, Ghost(bpv), Ghost(input@));
        },
        7 => {
            decode7(&mut r, &mut tmp, out);
            proof {
                assert forall|k: int| 0 <= k < 32 implies #[trigger] out@[k] == packed_word(bpv, input@, k) by {
                    if k >= 28 {
                        assert(out@[28 + 1 * (k - 28) + 0] == decode7_tail(raw_words(input@, 0, 28), k - 28, 0));
                    } else {
                        assert(out@[k] == band(raw_words(input@, 0, 28), 28, 1, 7, MASK8_7, k));
                    }
                }
            }
            spread_bytes(out, Ghost(bpv), Ghost(input@));
        },
        8 => {
            decode8(&mut r, out);
            proof {
                assert forall|k: int| 0 <= k < 32 implies #[trigger] out@[k] == packed_word(bpv, input@, k) by {
                    assert(out@[k] == raw_words(input@, 0, 32)[k]);
                }
            }
            spread_bytes(out, Ghost(bpv), Ghost(input@));
        },
        9 => {
            decode9(&mut r, &mut tmp, out);
            proof {
                assert forall|k: int| 0 <= k < 64 implies #[trigger] out@[k] == packed_word(bpv, input@, k) by {
                    if k >= 36 {
                        let kk = (k - 36) / 7;
                        let j = (k - 36) % 7;
                        assert(36 + 7 * kk + j == k);
                        assert(out@[36 + 7 * kk + j] == decode9_tail(raw_words(input@, 0, 36), kk, j));
                    } else {
                        assert(out@[k] == band(raw_words(input@, 0, 36), 36, 7, 9, MASK16_9, k));
                    }
                }
            }
            spread_halves(out, Ghost(bpv), Ghost(input@));
        },
        10 => {
            decode10(&mut r, &mut tmp, out);
            proof {
                assert forall|k: int| 0 <= k < 64 implies #[trigger] out@[k] == packed_word(bpv, input@, k) by {
                    if k >= 40 {
                        let kk = (k - 40) / 3;
                        let j = (k - 40) % 3;
                        assert(40 + 3 * kk + j == k);
                        assert(out@[40 + 3 * kk + j] == decode10_tail(raw_words(input@, 0, 40), kk, j));
                    } else {
                        assert(out@[k] == band(raw_words(input@, 0, 40), 40, 6, 10, MASK16_10, k));
                    }
                }
            }
            spread_halves(out, Ghost(bpv), Ghost(input@));
        },
        11 => {
            decode11(&mut r, &mut tmp, out);
            proof {
                assert forall|k: int| 0 <= k < 64 implies #[trigger] out@[k] == packed_word(bpv, input@, k) by {
                    if k >= 44 {
                        let kk = (k - 44) / 5;
                        let j = (k - 44) % 5;
                        assert(44 + 5 * kk + j == k);
                        assert(out@[44 + 5 * kk + j] == decode11_tail(raw_words(input@, 0, 44), kk, j));
                    } else {
                        assert(out@[k] == band(raw_words(input@, 0, 44), 44, 5, 11, MASK16_11, k));
                    }
                }
            }
            spread_halves(out, Ghost(bpv), Ghost(input@));
        },
        12 => {
            decode12(&mut r, &mut tmp, out);
            proof {
                assert forall|k: int| 0 <= k < 64 implies #[trigger] out@[k] == packed_word(bpv, input@, k) by {
                    if k >= 48 {
                        assert(out@[48 + 1 * (k - 48) + 0] == decode12_tail(raw_words(input@, 0, 48), k - 48, 0));
                    } else {
                        assert(out@[k] == band(raw_words(input@, 0, 48), 48, 4, 12, MASK16_12, k));
                    }
                }
            }
            spread_halves(out, Ghost(bpv), Ghost(input@));
        },
        13 => {
            decode13(&mut r, &mut tmp, out);
            proof {
                assert forall|k: int| 0 <= k < 64 implies #[trigger] out@[k] == packed_word(bpv, input@, k) by {
                    if k >= 52 {
                        let kk = (k - 52) / 3;
                        let j = (k - 52) % 3;
                        assert(52 + 3 * kk + j == k);
                        assert(out@[52 + 3 * kk + j] == decode13_tail(raw_words(input@, 0, 52), kk, j));
                    } else {
                        assert(out@[k] == band(raw_words(input@, 0, 52), 52, 3, 13, MASK16_13, k));
                    }
                }
            }
            spread_halves(out, Ghost(bpv), Ghost(input@));
        },
        14 => {
            decode14(&mut r, &mut tmp, out);
            proof {
                assert forall|k: int| 0 <= k < 64 implies #[trigger] out@[k] == packed_word(bpv, input@, k) by {
                    if k >= 56 {
                        assert(out@[56 + 1 * (k - 56) + 0] == decode14_tail(raw_words(input@, 0, 56), k - 56, 0));
                    } else {
                        assert(out@[k] == band(raw_words(input@, 0, 56), 56, 2, 14, MASK16_14, k));
                    }
                }
            }
            spread_halves(out, Ghost(bpv), Ghost(input@));
        },
        15 => {
            decode15(&mut r, &mut tmp, out);
            proof {
                assert forall|k: int| 0 <= k < 64 implies #[trigger] out@[k] == packed_word(bpv, input@, k) by {
                    if k >= 60 {
                        assert(out@[60 + 1 * (k - 60) + 0] == decode15_tail(raw_words(input@, 0, 60), k - 60, 0));
                    } else {
                        assert(out@[k] == band(raw_words(input@, 0, 60), 60, 1, 15, MASK16_15, k));
                    }
                }
            }
            spread_halves(out, Ghost(bpv), Ghost(input@));
        },
        16 => {
            decode16(&mut r, out);
            proof {
                assert forall|k: int| 0 <= k < 64 implies #[trigger] out@[k] == packed_word(bpv, input@, k) by {
                    assert(out@[k] == raw_words(input@, 0, 64)[k]);
                }
            }
            spread_halves(out, Ghost(bpv), Ghost(input@));
        },
        _ => decode_slow(bpv, &mut r, &mut tmp, out),
    }
}

/// How many shift bands a split of `b_shift` in steps of `dec` makes, less one.
pub open spec fn split_max_iter(b_shift: u32, dec: u32) -> int {
    if b_shift == 0 {
        0
    } else {
        (b_shift - 1) / (dec as int)
    }
}

/// What a `read_u32_le` at `p` returns: zero once fewer than four bytes
/// remain.
pub open spec fn word_read(buf: Seq<u8>, p: int) -> u32 {
    if p + 4 <= buf.len() {
        u32_at(buf, p)
    } else {
        0
    }
}

/// Where a reader at `p` stands after `k` word reads.
pub open spec fn words_pos(len: int, p: int, k: nat) -> int
    decreases k,
{
    if k == 0 {
        p
    } else {
        fixed_read_pos(words_pos(len, p, (k - 1) as nat), 4, len)
    }
}

/// The block `read_raw` fills: `count` words read from `p`, zeros after.
pub open spec fn raw_words(buf: Seq<u8>, p: int, count: int) -> Seq<u32> {
    Seq::new(
        BLOCK_SIZE as nat,
        |i: int|
            if i < count {
                word_read(buf, words_pos(buf.len() as int, p, i as nat))
            } else {
                0
            },
    )
}

/// `count` raw little-endian words from the reader.
#[verifier::spinoff_prover]
fn read_raw(input: &mut Reader<'_>, count: usize) -> (raw: [u32; BLOCK_SIZE])
    requires
        count <= BLOCK_SIZE,
    ensures
        final(input).buf@ == old(input).buf@,
        final(input).pos == words_pos(old(input).buf@.len() as int, old(input).pos as int, count as nat),
        raw@ == raw_words(old(input).buf@, old(input).pos as int, count as int),
{
    let ghost p0 = input.pos as int;
    let ghost len = input.buf@.len() as int;
    let mut raw: [u32; BLOCK_SIZE] = [0u32; BLOCK_SIZE];
    assert(raw == vstd::array::spec_array_fill_for_copy_type::<u32, BLOCK_SIZE>(0u32));
    let mut i: usize = 0;
    while i < count
        invariant
            count <= BLOCK_SIZE,
            i <= count,
            input.buf@ == old(input).buf@,
            len == input.buf@.len(),
            p0 == old(input).pos,
            input.pos == words_pos(len, p0, i as nat),
            forall|k: int|
                0 <= k < BLOCK_SIZE ==> #[trigger] raw@[k] == (if k < i {
                    word_read(input.buf@, words_pos(len, p0, k as nat))
                } else {
                    0
                }),
        decreases count - i,
    {
        raw[i] = input.read_u32_le();
        i = i + 1;
    }
    assert(raw@ =~= raw_words(old(input).buf@, p0, count as int));
    raw
}

/// A shift right that gives zero for shifts of 32 or more.
pub open spec fn shr_spec(v: u32, shift: int) -> u32 {
    if shift >= 32 {
        0
    } else {
        v >> (shift as u32)
    }
}

/// Values the shift bands fill: `count` per band.
pub open spec fn bands_len(count: int, b_shift: u32, dec: u32) -> int {
    count * (split_max_iter(b_shift, dec) + 1)
}

/// Value `k` of the shift bands: word `k % count` shifted right by
/// `b_shift - (k / count) dec`, masked.
pub open spec fn band(raw: Seq<u32>, count: int, b_shift: u32, dec: u32, b_mask: u32, k: int) -> u32 {
    shr_spec(raw[k % count], b_shift - (k / count) * dec) & b_mask
}

/// Value `k` after `splitInts`: the masked remainder at `c_index`, the
/// shift bands below `bands_len`, the old value elsewhere.
pub open spec fn split_at(
    prev: Seq<u32>,
    raw: Seq<u32>,
    count: int,
    b_shift: u32,
    dec: u32,
    b_mask: u32,
    c_index: int,
    c_mask: u32,
    k: int,
) -> u32 {
    if c_index <= k < c_index + count {
        raw[k - c_index] & c_mask
    } else if k < bands_len(count, b_shift, dec) {
        band(raw, count, b_shift, dec, b_mask, k)
    } else {
        prev[k]
    }
}

/// `splitInts`: shift bands of the raw words into `arr`, the masked
/// remainder at `c_index`.
pub(crate) fn split_ints(
    input: &mut Reader<'_>,
    count: usize,
    arr: &mut [u32; BLOCK_SIZE],
    b_shift: u32,
    dec: u32,
    b_mask: u32,
    c_index: usize,
    c_mask: u32,
)
    requires
        1 <= dec,
        b_shift <= 32,
        count * (split_max_iter(b_shift, dec) + 1) <= BLOCK_SIZE,
        c_index + count <= BLOCK_SIZE,
    ensures
        final(input).buf@ == old(input).buf@,
        final(input).pos == words_pos(old(input).buf@.len() as int, old(input).pos as int, count as nat),
        forall|k: int|
            0 <= k < BLOCK_SIZE ==> #[trigger] final(arr)@[k] == split_at(
                old(arr)@,
                raw_words(old(input).buf@, old(input).pos as int, count as int),
                count as int,
                b_shift,
                dec,
                b_mask,
                c_index as int,
                c_mask,
                k,
            ),
{
    assert(count <= count * (split_max_iter(b_shift, dec) + 1)) by (nonlinear_arith)
        requires
            split_max_iter(b_shift, dec) >= 0,
    ;
    let ghost prev = arr@;
    let raw = read_raw(input, count);
    split_from_raw(&raw, count, arr, b_shift, dec, b_mask);
    let ghost banded = arr@;
    let mut i: usize = 0;
    while i < count
        invariant
            c_index + count <= BLOCK_SIZE,
            i <= count,
            forall|k: int|
                0 <= k < BLOCK_SIZE ==> #[trigger] arr@[k] == (if c_index <= k < c_index + i {
                    raw@[k - c_index] & c_mask
                } else {
                    banded[k]
                }),
        decreases count - i,
    {
        arr[c_index + i] = raw[i] & c_mask;
        i = i + 1;
    }
}

/// `splitInts` with the remainder in a separate `tmp`.
pub(crate) fn split_ints_tmp(
    input: &mut Reader<'_>,
    count: usize,
    b: &mut [u32; BLOCK_SIZE],
    b_shift: u32,
    dec: u32,
    b_mask: u32,
    tmp: &mut [u32; BLOCK_SIZE],
    c_mask: u32,
)
    requires
        1 <= dec,
        b_shift <= 32,
        count * (split_max_iter(b_shift, dec) + 1) <= BLOCK_SIZE,
    ensures
        final(input).buf@ == old(input).buf@,
        final(input).pos == words_pos(old(input).buf@.len() as int, old(input).pos as int, count as nat),
        forall|k: int|
            0 <= k < BLOCK_SIZE ==> #[trigger] final(b)@[k] == (if k < bands_len(
                count as int,
                b_shift,
                dec,
            ) {
                band(
                    raw_words(old(input).buf@, old(input).pos as int, count as int),
                    count as int,
                    b_shift,
                    dec,
                    b_mask,
                    k,
                )
            } else {
                old(b)@[k]
            }),
        forall|k: int|
            0 <= k < BLOCK_SIZE ==> #[trigger] final(tmp)@[k] == (if k < count {
                raw_words(old(input).buf@, old(input).pos as int, count as int)[k] & c_mask
            } else {
                old(tmp)@[k]
            }),
{
    assert(count <= count * (split_max_iter(b_shift, dec) + 1)) by (nonlinear_arith)
        requires
            split_max_iter(b_shift, dec) >= 0,
    ;
    let raw = read_raw(input, count);
    split_from_raw(&raw, count, b, b_shift, dec, b_mask);
    let mut i: usize = 0;
    while i < count
        invariant
            count <= BLOCK_SIZE,
            i <= count,
            forall|k: int|
                0 <= k < BLOCK_SIZE ==> #[trigger] tmp@[k] == (if k < i {
                    raw@[k] & c_mask
                } else {
                    old(tmp)@[k]
                }),
        decreases count - i,
    {
        tmp[i] = raw[i] & c_mask;
        i = i + 1;
    }
}

fn split_from_raw(
    raw: &[u32; BLOCK_SIZE],
    count: usize,
    b: &mut [u32; BLOCK_SIZE],
    b_shift: u32,
    dec: u32,
    b_mask: u32,
)
    requires
        1 <= dec,
        b_shift <= 32,
        count * (split_max_iter(b_shift, dec) + 1) <= BLOCK_SIZE,
    ensures
        forall|k: int|
            0 <= k < BLOCK_SIZE ==> #[trigger] final(b)@[k] == (if k < bands_len(
                count as int,
                b_shift,
                dec,
            ) {
                band(raw@, count as int, b_shift, dec, b_mask, k)
            } else {
                old(b)@[k]
            }),
{
    let max_iter: u32 = if b_shift == 0 {
        0
    } else {
        (b_shift - 1) / dec
    };
    proof {
        if b_shift > 0 {
            assert(max_iter * dec <= b_shift - 1) by (nonlinear_arith)
                requires
                    max_iter == (b_shift - 1) / (dec as int),
                    dec >= 1,
                    b_shift >= 1,
            ;
        }
    }
    let mut j: u32 = 0;
    let mut b_offset: usize = 0;
    while j <= max_iter
        invariant
            1 <= dec,
            b_shift <= 32,
            max_iter == split_max_iter(b_shift, dec),
            b_shift > 0 ==> max_iter * dec <= b_shift - 1,
            count * (max_iter + 1) <= BLOCK_SIZE,
            j <= max_iter + 1,
            b_offset == count * j,
            forall|k: int|
                0 <= k < BLOCK_SIZE ==> #[trigger] b@[k] == (if k < count * j {
                    band(raw@, count as int, b_shift, dec, b_mask, k)
                } else {
                    old(b)@[k]
                }),
        decreases max_iter + 1 - j,
    {
        proof {
            assert(j * dec <= max_iter * dec) by (nonlinear_arith)
                requires
                    j <= max_iter,
                    dec >= 1,
            ;
            assert(count * (j + 1) <= count * (max_iter + 1)) by (nonlinear_arith)
                requires
                    j <= max_iter,
            ;
            assert(count * (j + 1) == count * j + count) by (nonlinear_arith);
        }
        let shift: u32 = b_shift - j * dec;
        let mut i: usize = 0;
        while i < count
            invariant
                b_offset + count <= BLOCK_SIZE,
                b_offset == count * j,
                shift == b_shift - j * dec,
                i <= count,
                forall|k: int|
                    0 <= k < BLOCK_SIZE ==> #[trigger] b@[k] == (if k < count * j + i {
                        band(raw@, count as int, b_shift, dec, b_mask, k)
                    } else {
                        old(b)@[k]
                    }),
            decreases count - i,
        {
            proof {
                assert(count * j == j * count) by (nonlinear_arith);
                vstd::arithmetic::div_mod::lemma_fundamental_div_mod_converse(
                    (count * j + i) as int,
                    count as int,
                    j as int,
                    i as int,
                );
            }
            b[b_offset + i] = shr(raw[i], shift) & b_mask;
            i = i + 1;
        }
        b_offset = b_offset + count;
        j = j + 1;
    }
}

/// Logical right shift that yields zero for shifts of 32 or more.
fn shr(v: u32, shift: u32) -> (r: u32)
    ensures
        r == (if shift >= 32 {
            0
        } else {
            v >> shift
        }),
{
    if shift >= 32 {
        0
    } else {
        v >> shift
    }
}

fn decode8(input: &mut Reader<'_>, ints: &mut [u32; BLOCK_SIZE])
    ensures
        final(input).buf@ == old(input).buf@,
        final(input).pos == words_pos(old(input).buf@.len() as int, old(input).pos as int, 32),
        forall|k: int|
            0 <= k < BLOCK_SIZE ==> #[trigger] final(ints)@[k] == (if k < 32 {
                raw_words(old(input).buf@, old(input).pos as int, 32)[k]
            } else {
                old(ints)@[k]
            }),
{
    let ghost p0 = input.pos as int;
    let ghost len = input.buf@.len() as int;
    let mut i: usize = 0;
    while i < 32
        invariant
            i <= 32,
            input.buf@ == old(input).buf@,
            len == input.buf@.len(),
            p0 == old(input).pos,
            input.pos == words_pos(len, p0, i as nat),
            forall|k: int|
                0 <= k < BLOCK_SIZE ==> #[trigger] ints@[k] == (if k < i {
                    word_read(input.buf@, words_pos(len, p0, k as nat))
                } else {
                    old(ints)@[k]
                }),
        decreases 32 - i,
    {
        ints[i] = input.read_u32_le();
        i = i + 1;
    }
}

fn decode16(input: &mut Reader<'_>, ints: &mut [u32; BLOCK_SIZE])
    ensures
        final(input).buf@ == old(input).buf@,
        final(input).pos == words_pos(old(input).buf@.len() as int, old(input).pos as int, 64),
        forall|k: int|
            0 <= k < BLOCK_SIZE ==> #[trigger] final(ints)@[k] == (if k < 64 {
                raw_words(old(input).buf@, old(input).pos as int, 64)[k]
            } else {
                old(ints)@[k]
            }),
{
    let ghost p0 = input.pos as int;
    let ghost len = input.buf@.len() as int;
    let mut i: usize = 0;
    while i < 64
        invariant
            i <= 64,
            input.buf@ == old(input).buf@,
            len == input.buf@.len(),
            p0 == old(input).pos,
            input.pos == words_pos(len, p0, i as nat),
            forall|k: int|
                0 <= k < BLOCK_SIZE ==> #[trigger] ints@[k] == (if k < i {
                    word_read(input.buf@, words_pos(len, p0, k as nat))
                } else {
                    old(ints)@[k]
                }),
        decreases 64 - i,
    {
        ints[i] = input.read_u32_le();
        i = i + 1;
    }
}

/// A word index whose bits all come before the end of value `e1 - 1` lies
/// within the `4 bpv` raw words.
proof fn lemma_word_bound(t: int, rest: int, e1: int, bpv: int)
    requires
        rest >= 1,
        bpv >= 1,
        0 <= t,
        e1 <= 4 * rest,
        t * rest < e1 * bpv,
    ensures
        t < 4 * bpv,
{
    assert(e1 * bpv <= 4 * rest * bpv) by (nonlinear_arith)
        requires
            e1 <= 4 * rest,
            bpv >= 1,
    ;
    assert(t < 4 * bpv) by (nonlinear_arith)
        requires
            t * rest < 4 * rest * bpv,
            rest >= 1,
    ;
}

/// The leftover bits of the raw words gathered into one value: `rest`
/// low bits per word, most significant first, from word `t` on, with `b`
/// bits still to fill and `acc` holding what is gathered so far. A word
/// that only partly fits gives its top bits.
pub open spec fn gather(raw: Seq<u32>, rest: u32, t: int, b: u32, acc: u32) -> u32
    decreases b,
{
    if rest == 0 || b == 0 {
        acc
    } else if b >= rest {
        gather(
            raw,
            rest,
            t + 1,
            (b - rest) as u32,
            acc | ((raw[t] & low_mask(rest)) << ((b - rest) as u32)),
        )
    } else {
        acc | (shr_spec(raw[t], rest - b) & low_mask(b))
    }
}

/// Value `4 bpv + e` of a block wider than 16 bits: the `bpv` bits of the
/// leftover stream (`32 - bpv` low bits per raw word) that start at bit
/// `e bpv`. Its first word gives its low `r` bits, the ones not taken yet.
pub open spec fn stitched(raw: Seq<u32>, bpv: u32, e: int) -> u32 {
    let rest = (32 - bpv) as u32;
    let t = (e * bpv) / (rest as int);
    let r = (rest - (e * bpv) % (rest as int)) as u32;
    let b = (bpv - r) as u32;
    gather(raw, rest, t + 1, b, (raw[t] & low_mask(r)) << b)
}

/// The general decoder for widths above 16: one band at `32 - bpv`, then
/// each remaining int stitched from the leftover bits of the raw words.
#[verifier::spinoff_prover]
pub(crate) fn decode_slow(
    bpv: u32,
    input: &mut Reader<'_>,
    tmp: &mut [u32; BLOCK_SIZE],
    ints: &mut [u32; BLOCK_SIZE],
)
    requires
        17 <= bpv <= 32,
    ensures
        final(input).buf@ == old(input).buf@,
        final(input).pos == words_pos(old(input).buf@.len() as int, old(input).pos as int, (4 * bpv) as nat),
        forall|m: int|
            0 <= m < 4 * bpv ==> #[trigger] final(ints)@[m] == band(
                raw_words(old(input).buf@, old(input).pos as int, 4 * bpv),
                4 * bpv,
                (32 - bpv) as u32,
                32,
                low_mask(bpv),
                m,
            ),
        forall|m: int|
            4 * bpv <= m < BLOCK_SIZE ==> #[trigger] final(ints)@[m] == stitched(
                raw_words(old(input).buf@, old(input).pos as int, 4 * bpv),
                bpv,
                m - 4 * bpv,
            ),
{
    let ghost raw = raw_words(input.buf@, input.pos as int, 4 * bpv);
    let num_ints: usize = (bpv as usize) << 2usize;
    assert(num_ints == 4 * bpv) by (bit_vector)
        requires
            num_ints == (bpv as usize) << 2usize,
            bpv <= 32,
    ;
    let mask = mask32(bpv);
    split_ints_tmp(input, num_ints, ints, 32 - bpv, 32, mask, tmp, u32::MAX);
    assert(bands_len(num_ints as int, (32 - bpv) as u32, 32) == num_ints);
    proof {
        assert forall|m: int| 0 <= m < num_ints implies #[trigger] tmp@[m] == raw[m] by {
            super::for_delta::lemma_bit_facts(raw[m], 0);
        }
    }
    let ghost mid = ints@;
    let remaining_bits_per_int: u32 = 32 - bpv;
    let mask32_remaining = mask32(remaining_bits_per_int);
    let mut tmp_idx: usize = 0;
    let mut remaining_bits: u32 = remaining_bits_per_int;
    let mut ints_idx: usize = num_ints;
    assert((tmp_idx + 1) * remaining_bits_per_int == (ints_idx - num_ints) * bpv + remaining_bits) by (nonlinear_arith)
        requires
            tmp_idx == 0,
            ints_idx == num_ints,
            remaining_bits == remaining_bits_per_int,
    ;
    while ints_idx < BLOCK_SIZE
        invariant
            17 <= bpv <= 32,
            num_ints == 4 * bpv,
            remaining_bits_per_int == 32 - bpv,
            num_ints <= ints_idx <= BLOCK_SIZE,
            bpv < 32 ==> 1 <= remaining_bits <= remaining_bits_per_int,
            (tmp_idx + 1) * remaining_bits_per_int == (ints_idx - num_ints) * bpv
                + remaining_bits,
            forall|m: int| 0 <= m < num_ints ==> #[trigger] ints@[m] == mid[m],
            forall|m: int| 0 <= m < num_ints ==> #[trigger] tmp@[m] == raw[m],
            mask32_remaining == low_mask(remaining_bits_per_int),
            forall|m: int|
                num_ints <= m < ints_idx ==> #[trigger] ints@[m] == stitched(raw, bpv, m - num_ints),
        decreases BLOCK_SIZE - ints_idx,
    {
        let ghost rest = remaining_bits_per_int as int;
        let ghost e = ints_idx - num_ints;
        proof {
            lemma_mul_succ(tmp_idx as int, rest);
            lemma_mul_succ(e, bpv as int);
            lemma_word_bound(tmp_idx as int, rest, e + 1, bpv as int);
            vstd::arithmetic::div_mod::lemma_fundamental_div_mod_converse(
                e * bpv,
                rest,
                tmp_idx as int,
                rest - remaining_bits,
            );
        }
        let ghost t0 = tmp_idx as int;
        let mut b: u32 = bpv - remaining_bits;
        let ghost b0 = b;
        let mut l: u32 = (tmp[tmp_idx] & mask32(remaining_bits)) << b;
        let ghost l0 = l;
        assert(stitched(raw, bpv, e) == gather(raw, remaining_bits_per_int, t0 + 1, b0, l0));
        tmp_idx = tmp_idx + 1;
        while b >= remaining_bits_per_int
            invariant
                17 <= bpv < 32,
                rest == remaining_bits_per_int,
                remaining_bits_per_int == 32 - bpv,
                b < bpv,
                0 <= e,
                e + 1 <= 4 * rest,
                (tmp_idx as int) * rest == e * bpv + bpv - b,
                num_ints == 4 * bpv,
                forall|m: int| 0 <= m < num_ints ==> #[trigger] tmp@[m] == raw[m],
                mask32_remaining == low_mask(remaining_bits_per_int),
                gather(raw, remaining_bits_per_int, t0 + 1, b0, l0) == gather(
                    raw,
                    remaining_bits_per_int,
                    tmp_idx as int,
                    b,
                    l,
                ),
            decreases b,
        {
            proof {
                lemma_mul_succ(e, bpv as int);
                lemma_mul_succ(tmp_idx as int, rest);
                lemma_word_bound(tmp_idx as int, rest, e + 1, bpv as int);
            }
            b = b - remaining_bits_per_int;
            l = l | ((tmp[tmp_idx] & mask32_remaining) << b);
            tmp_idx = tmp_idx + 1;
        }
        proof {
            lemma_mul_succ(e, bpv as int);
            lemma_mul_succ(tmp_idx as int, rest);
        }
        if b > 0 {
            proof {
                lemma_word_bound(tmp_idx as int, rest, e + 1, bpv as int);
            }
            let ghost lb = l;
            l = l | (shr(tmp[tmp_idx], remaining_bits_per_int - b) & mask32(b));
            assert(l == gather(raw, remaining_bits_per_int, tmp_idx as int, b, lb));
            remaining_bits = remaining_bits_per_int - b;
        } else {
            remaining_bits = remaining_bits_per_int;
        }
        assert(l == stitched(raw, bpv, e));
        let ghost before = ints@;
        ints[ints_idx] = l;
        proof {
            assert forall|m: int|
                num_ints <= m < ints_idx + 1 implies #[trigger] ints@[m] == stitched(
                raw,
                bpv,
                m - num_ints,
            ) by {
                if m < ints_idx {
                    assert(ints@[m] == before[m]);
                }
            }
        }
        ints_idx = ints_idx + 1;
    }
}


pub(crate) fn decode1(input: &mut Reader<'_>, ints: &mut [u32; BLOCK_SIZE])
    ensures
        final(input).buf@ == old(input).buf@,
        final(input).pos == words_pos(old(input).buf@.len() as int, old(input).pos as int, 4),
        forall|k: int|
            0 <= k < BLOCK_SIZE ==> #[trigger] final(ints)@[k] == split_at(
                old(ints)@,
                raw_words(old(input).buf@, old(input).pos as int, 4),
                4,
                7,
                1,
                MASK8_1,
                28,
                MASK8_1,
                k,
            ),
{
    split_ints(input, 4, ints, 7, 1, MASK8_1, 28, MASK8_1);
}

pub(crate) fn decode2(input: &mut Reader<'_>, ints: &mut [u32; BLOCK_SIZE])
    ensures
        final(input).buf@ == old(input).buf@,
        final(input).pos == words_pos(old(input).buf@.len() as int, old(input).pos as int, 8),
        forall|k: int|
            0 <= k < BLOCK_SIZE ==> #[trigger] final(ints)@[k] == split_at(
                old(ints)@,
                raw_words(old(input).buf@, old(input).pos as int, 8),
                8,
                6,
                2,
                MASK8_2,
                24,
                MASK8_2,
                k,
            ),
{
    split_ints(input, 8, ints, 6, 2, MASK8_2, 24, MASK8_2);
}

/// Value `j` of group `kk` that `decode3` stitches together from the
/// masked remainders of the raw words.
pub open spec fn decode3_tail(raw: Seq<u32>, kk: int, j: int) -> u32 {
    if j == 0 {
        ((raw[3 * kk + 0] & MASK8_2) << 1) | (((raw[3 * kk + 1] & MASK8_2) >> 1) & MASK8_1)
    } else {
        (((raw[3 * kk + 1] & MASK8_2) & MASK8_1) << 2) | (raw[3 * kk + 2] & MASK8_2)
    }
}

pub(crate) fn decode3(input: &mut Reader<'_>, tmp: &mut [u32; BLOCK_SIZE], ints: &mut [u32; BLOCK_SIZE])
    ensures
        final(input).buf@ == old(input).buf@,
        final(input).pos == words_pos(old(input).buf@.len() as int, old(input).pos as int, 12),
        forall|m: int|
            0 <= m < BLOCK_SIZE && !(24 <= m < 32) ==> #[trigger] final(ints)@[m] == (if m < bands_len(
                12,
                5,
                3,
            ) {
                band(raw_words(old(input).buf@, old(input).pos as int, 12), 12, 5, 3, MASK8_3, m)
            } else {
                old(ints)@[m]
            }),
        forall|kk: int, j: int|
            0 <= kk < 4 && 0 <= j < 2 ==> final(ints)@[24 + 2 * kk + j] == #[trigger] decode3_tail(
                raw_words(old(input).buf@, old(input).pos as int, 12),
                kk,
                j,
            ),
{
    let ghost raw = raw_words(input.buf@, input.pos as int, 12);
    split_ints_tmp(input, 12, ints, 5, 3, MASK8_3, tmp, MASK8_2);
    let ghost t0 = tmp@;
    let ghost mid = ints@;
    let mut tmp_idx: usize = 0;
    let mut ints_idx: usize = 24;
    let mut k: usize = 0;
    while k < 4
        invariant
            k <= 4,
            tmp_idx == 3 * k,
            ints_idx == 24 + 2 * k,
            tmp@ == t0,
            forall|x: int| 0 <= x < 12 ==> #[trigger] t0[x] == raw[x] & MASK8_2,
            forall|m: int|
                0 <= m < BLOCK_SIZE && !(24 <= m < 24 + 2 * k) ==> #[trigger] ints@[m] == mid[m],
            forall|kk: int, j: int|
                0 <= kk < k && 0 <= j < 2 ==> ints@[24 + 2 * kk + j] == #[trigger] decode3_tail(raw, kk, j),
        decreases 4 - k,
    {
        let ghost prev = ints@;
        let mut l0: u32 = tmp[tmp_idx] << 1;
        l0 |= (tmp[tmp_idx + 1] >> 1) & MASK8_1;
        ints[ints_idx] = l0;
        let mut l1: u32 = (tmp[tmp_idx + 1] & MASK8_1) << 2;
        l1 |= tmp[tmp_idx + 2];
        ints[ints_idx + 1] = l1;
        proof {
            assert(ints@[24 + 2 * k + 0] == decode3_tail(raw, k as int, 0));
            assert(ints@[24 + 2 * k + 1] == decode3_tail(raw, k as int, 1));
            assert forall|kk: int, j: int| 0 <= kk < k + 1 && 0 <= j < 2 implies ints@[24 + 2 * kk + j]
                == #[trigger] decode3_tail(raw, kk, j) by {
                if kk < k {
                    assert(prev[24 + 2 * kk + j] == decode3_tail(raw, kk, j));
                }
            }
            assert forall|m: int|
                0 <= m < BLOCK_SIZE && !(24 <= m < 24 + 2 * (k + 1)) implies #[trigger] ints@[m] == mid[m] by {
                assert(prev[m] == mid[m]);
            }
        }
        tmp_idx = tmp_idx + 3;
        ints_idx = ints_idx + 2;
        k = k + 1;
    }
}

pub(crate) fn decode4(input: &mut Reader<'_>, ints: &mut [u32; BLOCK_SIZE])
    ensures
        final(input).buf@ == old(input).buf@,
        final(input).pos == words_pos(old(input).buf@.len() as int, old(input).pos as int, 16),
        forall|k: int|
            0 <= k < BLOCK_SIZE ==> #[trigger] final(ints)@[k] == split_at(
                old(ints)@,
                raw_words(old(input).buf@, old(input).pos as int, 16),
                16,
                4,
                4,
                MASK8_4,
                16,
                MASK8_4,
                k,
            ),
{
    split_ints(input, 16, ints, 4, 4, MASK8_4, 16, MASK8_4);
}

/// Value `j` of group `kk` that `decode5` stitches together from the
/// masked remainders of the raw words.
pub open spec fn decode5_tail(raw: Seq<u32>, kk: int, j: int) -> u32 {
    if j == 0 {
        ((raw[5 * kk + 0] & MASK8_3) << 2) | (((raw[5 * kk + 1] & MASK8_3) >> 1) & MASK8_2)
    } else if j == 1 {
        ((((raw[5 * kk + 1] & MASK8_3) & MASK8_1) << 4) | ((raw[5 * kk + 2] & MASK8_3) << 1)) | (((raw[5 * kk + 3] & MASK8_3) >> 2) & MASK8_1)
    } else {
        (((raw[5 * kk + 3] & MASK8_3) & MASK8_2) << 3) | (raw[5 * kk + 4] & MASK8_3)
    }
}

pub(crate) fn decode5(input: &mut Reader<'_>, tmp: &mut [u32; BLOCK_SIZE], ints: &mut [u32; BLOCK_SIZE])
    ensures
        final(input).buf@ == old(input).buf@,
        final(input).pos == words_pos(old(input).buf@.len() as int, old(input).pos as int, 20),
        forall|m: int|
            0 <= m < BLOCK_SIZE && !(20 <= m < 32) ==> #[trigger] final(ints)@[m] == (if m < bands_len(
                20,
                3,
                5,
            ) {
                band(raw_words(old(input).buf@, old(input).pos as int, 20), 20, 3, 5, MASK8_5, m)
            } else {
                old(ints)@[m]
            }),
        forall|kk: int, j: int|
            0 <= kk < 4 && 0 <= j < 3 ==> final(ints)@[20 + 3 * kk + j] == #[trigger] decode5_tail(
                raw_words(old(input).buf@, old(input).pos as int, 20),
                kk,
                j,
            ),
{
    let ghost raw = raw_words(input.buf@, input.pos as int, 20);
    split_ints_tmp(input, 20, ints, 3, 5, MASK8_5, tmp, MASK8_3);
    let ghost t0 = tmp@;
    let ghost mid = ints@;
    let mut tmp_idx: usize = 0;
    let mut ints_idx: usize = 20;
    let mut k: usize = 0;
    while k < 4
        invariant
            k <= 4,
            tmp_idx == 5 * k,
            ints_idx == 20 + 3 * k,
            tmp@ == t0,
            forall|x: int| 0 <= x < 20 ==> #[trigger] t0[x] == raw[x] & MASK8_3,
            forall|m: int|
                0 <= m < BLOCK_SIZE && !(20 <= m < 20 + 3 * k) ==> #[trigger] ints@[m] == mid[m],
            forall|kk: int, j: int|
                0 <= kk < k && 0 <= j < 3 ==> ints@[20 + 3 * kk + j] == #[trigger] decode5_tail(raw, kk, j),
        decreases 4 - k,
    {
        let ghost prev = ints@;
        let mut l0: u32 = tmp[tmp_idx] << 2;
        l0 |= (tmp[tmp_idx + 1] >> 1) & MASK8_2;
        ints[ints_idx] = l0;
        let mut l1: u32 = (tmp[tmp_idx + 1] & MASK8_1) << 4;
        l1 |= tmp[tmp_idx + 2] << 1;
        l1 |= (tmp[tmp_idx + 3] >> 2) & MASK8_1;
        ints[ints_idx + 1] = l1;
        let mut l2: u32 = (tmp[tmp_idx + 3] & MASK8_2) << 3;
        l2 |= tmp[tmp_idx + 4];
        ints[ints_idx + 2] = l2;
        proof {
            assert(ints@[20 + 3 * k + 0] == decode5_tail(raw, k as int, 0));
            assert(ints@[20 + 3 * k + 1] == decode5_tail(raw, k as int, 1));
            assert(ints@[20 + 3 * k + 2] == decode5_tail(raw, k as int, 2));
            assert forall|kk: int, j: int| 0 <= kk < k + 1 && 0 <= j < 3 implies ints@[20 + 3 * kk + j]
                == #[trigger] decode5_tail(raw, kk, j) by {
                if kk < k {
                    assert(prev[20 + 3 * kk + j] == decode5_tail(raw, kk, j));
                }
            }
            assert forall|m: int|
                0 <= m < BLOCK_SIZE && !(20 <= m < 20 + 3 * (k + 1)) implies #[trigger] ints@[m] == mid[m] by {
                assert(prev[m] == mid[m]);
            }
        }
        tmp_idx = tmp_idx + 5;
        ints_idx = ints_idx + 3;
        k = k + 1;
    }
}

/// Value `j` of group `kk` that `decode6` stitches together from the
/// masked remainders of the raw words.
pub open spec fn decode6_tail(raw: Seq<u32>, kk: int, j: int) -> u32 {
    (((raw[3 * kk + 0] & MASK8_2) << 4) | ((raw[3 * kk + 1] & MASK8_2) << 2)) | (raw[3 * kk + 2] & MASK8_2)
}

pub(crate) fn decode6(input: &mut Reader<'_>, tmp: &mut [u32; BLOCK_SIZE], ints: &mut [u32; BLOCK_SIZE])
    ensures
        final(input).buf@ == old(input).buf@,
        final(input).pos == words_pos(old(input).buf@.len() as int, old(input).pos as int, 24),
        forall|m: int|
            0 <= m < BLOCK_SIZE && !(24 <= m < 32) ==> #[trigger] final(ints)@[m] == (if m < bands_len(
                24,
                2,
                6,
            ) {
                band(raw_words(old(input).buf@, old(input).pos as int, 24), 24, 2, 6, MASK8_6, m)
            } else {
                old(ints)@[m]
            }),
        forall|kk: int, j: int|
            0 <= kk < 8 && 0 <= j < 1 ==> final(ints)@[24 + 1 * kk + j] == #[trigger] decode6_tail(
                raw_words(old(input).buf@, old(input).pos as int, 24),
                kk,
                j,
            ),
{
    let ghost raw = raw_words(input.buf@, input.pos as int, 24);
    split_ints_tmp(input, 24, ints, 2, 6, MASK8_6, tmp, MASK8_2);
    let ghost t0 = tmp@;
    let ghost mid = ints@;
    let mut tmp_idx: usize = 0;
    let mut ints_idx: usize = 24;
    let mut k: usize = 0;
    while k < 8
        invariant
            k <= 8,
            tmp_idx == 3 * k,
            ints_idx == 24 + 1 * k,
            tmp@ == t0,
            forall|x: int| 0 <= x < 24 ==> #[trigger] t0[x] == raw[x] & MASK8_2,
            forall|m: int|
                0 <= m < BLOCK_SIZE && !(24 <= m < 24 + 1 * k) ==> #[trigger] ints@[m] == mid[m],
            forall|kk: int, j: int|
                0 <= kk < k && 0 <= j < 1 ==> ints@[24 + 1 * kk + j] == #[trigger] decode6_tail(raw, kk, j),
        decreases 8 - k,
    {
        let ghost prev = ints@;
        let mut l0: u32 = tmp[tmp_idx] << 4;
        l0 |= tmp[tmp_idx + 1] << 2;
        l0 |= tmp[tmp_idx + 2];
        ints[ints_idx] = l0;
        proof {
            assert(ints@[24 + 1 * k + 0] == decode6_tail(raw, k as int, 0));
            assert forall|kk: int, j: int| 0 <= kk < k + 1 && 0 <= j < 1 implies ints@[24 + 1 * kk + j]
                == #[trigger] decode6_tail(raw, kk, j) by {
                if kk < k {
                    assert(prev[24 + 1 * kk + j] == decode6_tail(raw, kk, j));
                }
            }
            assert forall|m: int|
                0 <= m < BLOCK_SIZE && !(24 <= m < 24 + 1 * (k + 1)) implies #[trigger] ints@[m] == mid[m] by {
                assert(prev[m] == mid[m]);
            }
        }
        tmp_idx = tmp_idx + 3;
        ints_idx = ints_idx + 1;
        k = k + 1;
    }
}

/// Value `j` of group `kk` that `decode7` stitches together from the
/// masked remainders of the raw words.
pub open spec fn decode7_tail(raw: Seq<u32>, kk: int, j: int) -> u32 {
    (((((((raw[7 * kk + 0] & MASK8_1) << 6) | ((raw[7 * kk + 1] & MASK8_1) << 5)) | ((raw[7 * kk + 2] & MASK8_1) << 4)) | ((raw[7 * kk + 3] & MASK8_1) << 3)) | ((raw[7 * kk + 4] & MASK8_1) << 2)) | ((raw[7 * kk + 5] & MASK8_1) << 1)) | (raw[7 * kk + 6] & MASK8_1)
}

pub(crate) fn decode7(input: &mut Reader<'_>, tmp: &mut [u32; BLOCK_SIZE], ints: &mut [u32; BLOCK_SIZE])
    ensures
        final(input).buf@ == old(input).buf@,
        final(input).pos == words_pos(old(input).buf@.len() as int, old(input).pos as int, 28),
        forall|m: int|
            0 <= m < BLOCK_SIZE && !(28 <= m < 32) ==> #[trigger] final(ints)@[m] == (if m < bands_len(
                28,
                1,
                7,
            ) {
                band(raw_words(old(input).buf@, old(input).pos as int, 28), 28, 1, 7, MASK8_7, m)
            } else {
                old(ints)@[m]
            }),
        forall|kk: int, j: int|
            0 <= kk < 4 && 0 <= j < 1 ==> final(ints)@[28 + 1 * kk + j] == #[trigger] decode7_tail(
                raw_words(old(input).buf@, old(input).pos as int, 28),
                kk,
                j,
            ),
{
    let ghost raw = raw_words(input.buf@, input.pos as int, 28);
    split_ints_tmp(input, 28, ints, 1, 7, MASK8_7, tmp, MASK8_1);
    let ghost t0 = tmp@;
    let ghost mid = ints@;
    let mut tmp_idx: usize = 0;
    let mut ints_idx: usize = 28;
    let mut k: usize = 0;
    while k < 4
        invariant
            k <= 4,
            tmp_idx == 7 * k,
            ints_idx == 28 + 1 * k,
            tmp@ == t0,
            forall|x: int| 0 <= x < 28 ==> #[trigger] t0[x] == raw[x] & MASK8_1,
            forall|m: int|
                0 <= m < BLOCK_SIZE && !(28 <= m < 28 + 1 * k) ==> #[trigger] ints@[m] == mid[m],
            forall|kk: int, j: int|
                0 <= kk < k && 0 <= j < 1 ==> ints@[28 + 1 * kk + j] == #[trigger] decode7_tail(raw, kk, j),
        decreases 4 - k,
    {
        let ghost prev = ints@;
        let mut l0: u32 = tmp[tmp_idx] << 6;
        l0 |= tmp[tmp_idx + 1] << 5;
        l0 |= tmp[tmp_idx + 2] << 4;
        l0 |= tmp[tmp_idx + 3] << 3;
        l0 |= tmp[tmp_idx + 4] << 2;
        l0 |= tmp[tmp_idx + 5] << 1;
        l0 |= tmp[tmp_idx + 6];
        ints[ints_idx] = l0;
        proof {
            assert(ints@[28 + 1 * k + 0] == decode7_tail(raw, k as int, 0));
            assert forall|kk: int, j: int| 0 <= kk < k + 1 && 0 <= j < 1 implies ints@[28 + 1 * kk + j]
                == #[trigger] decode7_tail(raw, kk, j) by {
                if kk < k {
                    assert(prev[28 + 1 * kk + j] == decode7_tail(raw, kk, j));
                }
            }
            assert forall|m: int|
                0 <= m < BLOCK_SIZE && !(28 <= m < 28 + 1 * (k + 1)) implies #[trigger] ints@[m] == mid[m] by {
                assert(prev[m] == mid[m]);
            }
        }
        tmp_idx = tmp_idx + 7;
        ints_idx = ints_idx + 1;
        k = k + 1;
    }
}

/// Value `j` of group `kk` that `decode9` stitches together from the
/// masked remainders of the raw words.
pub open spec fn decode9_tail(raw: Seq<u32>, kk: int, j: int) -> u32 {
    if j == 0 {
        ((raw[9 * kk + 0] & MASK16_7) << 2) | (((raw[9 * kk + 1] & MASK16_7) >> 5) & MASK16_2)
    } else if j == 1 {
        (((raw[9 * kk + 1] & MASK16_7) & MASK16_5) << 4) | (((raw[9 * kk + 2] & MASK16_7) >> 3) & MASK16_4)
    } else if j == 2 {
        (((raw[9 * kk + 2] & MASK16_7) & MASK16_3) << 6) | (((raw[9 * kk + 3] & MASK16_7) >> 1) & MASK16_6)
    } else if j == 3 {
        ((((raw[9 * kk + 3] & MASK16_7) & MASK16_1) << 8) | ((raw[9 * kk + 4] & MASK16_7) << 1)) | (((raw[9 * kk + 5] & MASK16_7) >> 6) & MASK16_1)
    } else if j == 4 {
        (((raw[9 * kk + 5] & MASK16_7) & MASK16_6) << 3) | (((raw[9 * kk + 6] & MASK16_7) >> 4) & MASK16_3)
    } else if j == 5 {
        (((raw[9 * kk + 6] & MASK16_7) & MASK16_4) << 5) | (((raw[9 * kk + 7] & MASK16_7) >> 2) & MASK16_5)
    } else {
        (((raw[9 * kk + 7] & MASK16_7) & MASK16_2) << 7) | (raw[9 * kk + 8] & MASK16_7)
    }
}

pub(crate) fn decode9(input: &mut Reader<'_>, tmp: &mut [u32; BLOCK_SIZE], ints: &mut [u32; BLOCK_SIZE])
    ensures
        final(input).buf@ == old(input).buf@,
        final(input).pos == words_pos(old(input).buf@.len() as int, old(input).pos as int, 36),
        forall|m: int|
            0 <= m < BLOCK_SIZE && !(36 <= m < 64) ==> #[trigger] final(ints)@[m] == (if m < bands_len(
                36,
                7,
                9,
            ) {
                band(raw_words(old(input).buf@, old(input).pos as int, 36), 36, 7, 9, MASK16_9, m)
            } else {
                old(ints)@[m]
            }),
        forall|kk: int, j: int|
            0 <= kk < 4 && 0 <= j < 7 ==> final(ints)@[36 + 7 * kk + j] == #[trigger] decode9_tail(
                raw_words(old(input).buf@, old(input).pos as int, 36),
                kk,
                j,
            ),
{
    let ghost raw = raw_words(input.buf@, input.pos as int, 36);
    split_ints_tmp(input, 36, ints, 7, 9, MASK16_9, tmp, MASK16_7);
    let ghost t0 = tmp@;
    let ghost mid = ints@;
    let mut tmp_idx: usize = 0;
    let mut ints_idx: usize = 36;
    let mut k: usize = 0;
    while k < 4
        invariant
            k <= 4,
            tmp_idx == 9 * k,
            ints_idx == 36 + 7 * k,
            tmp@ == t0,
            forall|x: int| 0 <= x < 36 ==> #[trigger] t0[x] == raw[x] & MASK16_7,
            forall|m: int|
                0 <= m < BLOCK_SIZE && !(36 <= m < 36 + 7 * k) ==> #[trigger] ints@[m] == mid[m],
            forall|kk: int, j: int|
                0 <= kk < k && 0 <= j < 7 ==> ints@[36 + 7 * kk + j] == #[trigger] decode9_tail(raw, kk, j),
        decreases 4 - k,
    {
        let ghost prev = ints@;
        let mut l0: u32 = tmp[tmp_idx] << 2;
        l0 |= (tmp[tmp_idx + 1] >> 5) & MASK16_2;
        ints[ints_idx] = l0;
        let mut l1: u32 = (tmp[tmp_idx + 1] & MASK16_5) << 4;
        l1 |= (tmp[tmp_idx + 2] >> 3) & MASK16_4;
        ints[ints_idx + 1] = l1;
        let mut l2: u32 = (tmp[tmp_idx + 2] & MASK16_3) << 6;
        l2 |= (tmp[tmp_idx + 3] >> 1) & MASK16_6;
        ints[ints_idx + 2] = l2;
        let mut l3: u32 = (tmp[tmp_idx + 3] & MASK16_1) << 8;
        l3 |= tmp[tmp_idx + 4] << 1;
        l3 |= (tmp[tmp_idx + 5] >> 6) & MASK16_1;
        ints[ints_idx + 3] = l3;
        let mut l4: u32 = (tmp[tmp_idx + 5] & MASK16_6) << 3;
        l4 |= (tmp[tmp_idx + 6] >> 4) & MASK16_3;
        ints[ints_idx + 4] = l4;
        let mut l5: u32 = (tmp[tmp_idx + 6] & MASK16_4) << 5;
        l5 |= (tmp[tmp_idx + 7] >> 2) & MASK16_5;
        ints[ints_idx + 5] = l5;
        let mut l6: u32 = (tmp[tmp_idx + 7] & MASK16_2) << 7;
        l6 |= tmp[tmp_idx + 8];
        ints[ints_idx + 6] = l6;
        proof {
            assert(ints@[36 + 7 * k + 0] == decode9_tail(raw, k as int, 0));
            assert(ints@[36 + 7 * k + 1] == decode9_tail(raw, k as int, 1));
            assert(ints@[36 + 7 * k + 2] == decode9_tail(raw, k as int, 2));
            assert(ints@[36 + 7 * k + 3] == decode9_tail(raw, k as int, 3));
            assert(ints@[36 + 7 * k + 4] == decode9_tail(raw, k as int, 4));
            assert(ints@[36 + 7 * k + 5] == decode9_tail(raw, k as int, 5));
            assert(ints@[36 + 7 * k + 6] == decode9_tail(raw, k as int, 6));
            assert forall|kk: int, j: int| 0 <= kk < k + 1 && 0 <= j < 7 implies ints@[36 + 7 * kk + j]
                == #[trigger] decode9_tail(raw, kk, j) by {
                if kk < k {
                    assert(prev[36 + 7 * kk + j] == decode9_tail(raw, kk, j));
                }
            }
            assert forall|m: int|
                0 <= m < BLOCK_SIZE && !(36 <= m < 36 + 7 * (k + 1)) implies #[trigger] ints@[m] == mid[m] by {
                assert(prev[m] == mid[m]);
            }
        }
        tmp_idx = tmp_idx + 9;
        ints_idx = ints_idx + 7;
        k = k + 1;
    }
}

/// Value `j` of group `kk` that `decode10` stitches together from the
/// masked remainders of the raw words.
pub open spec fn decode10_tail(raw: Seq<u32>, kk: int, j: int) -> u32 {
    if j == 0 {
        ((raw[5 * kk + 0] & MASK16_6) << 4) | (((raw[5 * kk + 1] & MASK16_6) >> 2) & MASK16_4)
    } else if j == 1 {
        ((((raw[5 * kk + 1] & MASK16_6) & MASK16_2) << 8) | ((raw[5 * kk + 2] & MASK16_6) << 2)) | (((raw[5 * kk + 3] & MASK16_6) >> 4) & MASK16_2)
    } else {
        (((raw[5 * kk + 3] & MASK16_6) & MASK16_4) << 6) | (raw[5 * kk + 4] & MASK16_6)
    }
}

pub(crate) fn decode10(input: &mut Reader<'_>, tmp: &mut [u32; BLOCK_SIZE], ints: &mut [u32; BLOCK_SIZE])
    ensures
        final(input).buf@ == old(input).buf@,
        final(input).pos == words_pos(old(input).buf@.len() as int, old(input).pos as int, 40),
        forall|m: int|
            0 <= m < BLOCK_SIZE && !(40 <= m < 64) ==> #[trigger] final(ints)@[m] == (if m < bands_len(
                40,
                6,
                10,
            ) {
                band(raw_words(old(input).buf@, old(input).pos as int, 40), 40, 6, 10, MASK16_10, m)
            } else {
                old(ints)@[m]
            }),
        forall|kk: int, j: int|
            0 <= kk < 8 && 0 <= j < 3 ==> final(ints)@[40 + 3 * kk + j] == #[trigger] decode10_tail(
                raw_words(old(input).buf@, old(input).pos as int, 40),
                kk,
                j,
            ),
{
    let ghost raw = raw_words(input.buf@, input.pos as int, 40);
    split_ints_tmp(input, 40, ints, 6, 10, MASK16_10, tmp, MASK16_6);
    let ghost t0 = tmp@;
    let ghost mid = ints@;
    let mut tmp_idx: usize = 0;
    let mut ints_idx: usize = 40;
    let mut k: usize = 0;
    while k < 8
        invariant
            k <= 8,
            tmp_idx == 5 * k,
            ints_idx == 40 + 3 * k,
            tmp@ == t0,
            forall|x: int| 0 <= x < 40 ==> #[trigger] t0[x] == raw[x] & MASK16_6,
            forall|m: int|
                0 <= m < BLOCK_SIZE && !(40 <= m < 40 + 3 * k) ==> #[trigger] ints@[m] == mid[m],
            forall|kk: int, j: int|
                0 <= kk < k && 0 <= j < 3 ==> ints@[40 + 3 * kk + j] == #[trigger] decode10_tail(raw, kk, j),
        decreases 8 - k,
    {
        let ghost prev = ints@;
        let mut l0: u32 = tmp[tmp_idx] << 4;
        l0 |= (tmp[tmp_idx + 1] >> 2) & MASK16_4;
        ints[ints_idx] = l0;
        let mut l1: u32 = (tmp[tmp_idx + 1] & MASK16_2) << 8;
        l1 |= tmp[tmp_idx + 2] << 2;
        l1 |= (tmp[tmp_idx + 3] >> 4) & MASK16_2;
        ints[ints_idx + 1] = l1;
        let mut l2: u32 = (tmp[tmp_idx + 3] & MASK16_4) << 6;
        l2 |= tmp[tmp_idx + 4];
        ints[ints_idx + 2] = l2;
        proof {
            assert(ints@[40 + 3 * k + 0] == decode10_tail(raw, k as int, 0));
            assert(ints@[40 + 3 * k + 1] == decode10_tail(raw, k as int, 1));
            assert(ints@[40 + 3 * k + 2] == decode10_tail(raw, k as int, 2));
            assert forall|kk: int, j: int| 0 <= kk < k + 1 && 0 <= j < 3 implies ints@[40 + 3 * kk + j]
                == #[trigger] decode10_tail(raw, kk, j) by {
                if kk < k {
                    assert(prev[40 + 3 * kk + j] == decode10_tail(raw, kk, j));
                }
            }
            assert forall|m: int|
                0 <= m < BLOCK_SIZE && !(40 <= m < 40 + 3 * (k + 1)) implies #[trigger] ints@[m] == mid[m] by {
                assert(prev[m] == mid[m]);
            }
        }
        tmp_idx = tmp_idx + 5;
        ints_idx = ints_idx + 3;
        k = k + 1;
    }
}

/// Value `j` of group `kk` that `decode11` stitches together from the
/// masked remainders of the raw words.
pub open spec fn decode11_tail(raw: Seq<u32>, kk: int, j: int) -> u32 {
    if j == 0 {
        (((raw[11 * kk + 0] & MASK16_5) << 6) | ((raw[11 * kk + 1] & MASK16_5) << 1)) | (((raw[11 * kk + 2] & MASK16_5) >> 4) & MASK16_1)
    } else if j == 1 {
        ((((raw[11 * kk + 2] & MASK16_5) & MASK16_4) << 7) | ((raw[11 * kk + 3] & MASK16_5) << 2)) | (((raw[11 * kk + 4] & MASK16_5) >> 3) & MASK16_2)
    } else if j == 2 {
        ((((raw[11 * kk + 4] & MASK16_5) & MASK16_3) << 8) | ((raw[11 * kk + 5] & MASK16_5) << 3)) | (((raw[11 * kk + 6] & MASK16_5) >> 2) & MASK16_3)
    } else if j == 3 {
        ((((raw[11 * kk + 6] & MASK16_5) & MASK16_2) << 9) | ((raw[11 * kk + 7] & MASK16_5) << 4)) | (((raw[11 * kk + 8] & MASK16_5) >> 1) & MASK16_4)
    } else {
        ((((raw[11 * kk + 8] & MASK16_5) & MASK16_1) << 10) | ((raw[11 * kk + 9] & MASK16_5) << 5)) | (raw[11 * kk + 10] & MASK16_5)
    }
}

pub(crate) fn decode11(input: &mut Reader<'_>, tmp: &mut [u32; BLOCK_SIZE], ints: &mut [u32; BLOCK_SIZE])
    ensures
        final(input).buf@ == old(input).buf@,
        final(input).pos == words_pos(old(input).buf@.len() as int, old(input).pos as int, 44),
        forall|m: int|
            0 <= m < BLOCK_SIZE && !(44 <= m < 64) ==> #[trigger] final(ints)@[m] == (if m < bands_len(
                44,
                5,
                11,
            ) {
                band(raw_words(old(input).buf@, old(input).pos as int, 44), 44, 5, 11, MASK16_11, m)
            } else {
                old(ints)@[m]
            }),
        forall|kk: int, j: int|
            0 <= kk < 4 && 0 <= j < 5 ==> final(ints)@[44 + 5 * kk + j] == #[trigger] decode11_tail(
                raw_words(old(input).buf@, old(input).pos as int, 44),
                kk,
                j,
            ),
{
    let ghost raw = raw_words(input.buf@, input.pos as int, 44);
    split_ints_tmp(input, 44, ints, 5, 11, MASK16_11, tmp, MASK16_5);
    let ghost t0 = tmp@;
    let ghost mid = ints@;
    let mut tmp_idx: usize = 0;
    let mut ints_idx: usize = 44;
    let mut k: usize = 0;
    while k < 4
        invariant
            k <= 4,
            tmp_idx == 11 * k,
            ints_idx == 44 + 5 * k,
            tmp@ == t0,
            forall|x: int| 0 <= x < 44 ==> #[trigger] t0[x] == raw[x] & MASK16_5,
            forall|m: int|
                0 <= m < BLOCK_SIZE && !(44 <= m < 44 + 5 * k) ==> #[trigger] ints@[m] == mid[m],
            forall|kk: int, j: int|
                0 <= kk < k && 0 <= j < 5 ==> ints@[44 + 5 * kk + j] == #[trigger] decode11_tail(raw, kk, j),
        decreases 4 - k,
    {
        let ghost prev = ints@;
        let mut l0: u32 = tmp[tmp_idx] << 6;
        l0 |= tmp[tmp_idx + 1] << 1;
        l0 |= (tmp[tmp_idx + 2] >> 4) & MASK16_1;
        ints[ints_idx] = l0;
        let mut l1: u32 = (tmp[tmp_idx + 2] & MASK16_4) << 7;
        l1 |= tmp[tmp_idx + 3] << 2;
        l1 |= (tmp[tmp_idx + 4] >> 3) & MASK16_2;
        ints[ints_idx + 1] = l1;
        let mut l2: u32 = (tmp[tmp_idx + 4] & MASK16_3) << 8;
        l2 |= tmp[tmp_idx + 5] << 3;
        l2 |= (tmp[tmp_idx + 6] >> 2) & MASK16_3;
        ints[ints_idx + 2] = l2;
        let mut l3: u32 = (tmp[tmp_idx + 6] & MASK16_2) << 9;
        l3 |= tmp[tmp_idx + 7] << 4;
        l3 |= (tmp[tmp_idx + 8] >> 1) & MASK16_4;
        ints[ints_idx + 3] = l3;
        let mut l4: u32 = (tmp[tmp_idx + 8] & MASK16_1) << 10;
        l4 |= tmp[tmp_idx + 9] << 5;
        l4 |= tmp[tmp_idx + 10];
        ints[ints_idx + 4] = l4;
        proof {
            assert(ints@[44 + 5 * k + 0] == decode11_tail(raw, k as int, 0));
            assert(ints@[44 + 5 * k + 1] == decode11_tail(raw, k as int, 1));
            assert(ints@[44 + 5 * k + 2] == decode11_tail(raw, k as int, 2));
            assert(ints@[44 + 5 * k + 3] == decode11_tail(raw, k as int, 3));
            assert(ints@[44 + 5 * k + 4] == decode11_tail(raw, k as int, 4));
            assert forall|kk: int, j: int| 0 <= kk < k + 1 && 0 <= j < 5 implies ints@[44 + 5 * kk + j]
                == #[trigger] decode11_tail(raw, kk, j) by {
                if kk < k {
                    assert(prev[44 + 5 * kk + j] == decode11_tail(raw, kk, j));
                }
            }
            assert forall|m: int|
                0 <= m < BLOCK_SIZE && !(44 <= m < 44 + 5 * (k + 1)) implies #[trigger] ints@[m] == mid[m] by {
                assert(prev[m] == mid[m]);
            }
        }
        tmp_idx = tmp_idx + 11;
        ints_idx = ints_idx + 5;
        k = k + 1;
    }
}

/// Value `j` of group `kk` that `decode12` stitches together from the
/// masked remainders of the raw words.
pub open spec fn decode12_tail(raw: Seq<u32>, kk: int, j: int) -> u32 {
    (((raw[3 * kk + 0] & MASK16_4) << 8) | ((raw[3 * kk + 1] & MASK16_4) << 4)) | (raw[3 * kk + 2] & MASK16_4)
}

pub(crate) fn decode12(input: &mut Reader<'_>, tmp: &mut [u32; BLOCK_SIZE], ints: &mut [u32; BLOCK_SIZE])
    ensures
        final(input).buf@ == old(input).buf@,
        final(input).pos == words_pos(old(input).buf@.len() as int, old(input).pos as int, 48),
        forall|m: int|
            0 <= m < BLOCK_SIZE && !(48 <= m < 64) ==> #[trigger] final(ints)@[m] == (if m < bands_len(
                48,
                4,
                12,
            ) {
                band(raw_words(old(input).buf@, old(input).pos as int, 48), 48, 4, 12, MASK16_12, m)
            } else {
                old(ints)@[m]
            }),
        forall|kk: int, j: int|
            0 <= kk < 16 && 0 <= j < 1 ==> final(ints)@[48 + 1 * kk + j] == #[trigger] decode12_tail(
                raw_words(old(input).buf@, old(input).pos as int, 48),
                kk,
                j,
            ),
{
    let ghost raw = raw_words(input.buf@, input.pos as int, 48);
    split_ints_tmp(input, 48, ints, 4, 12, MASK16_12, tmp, MASK16_4);
    let ghost t0 = tmp@;
    let ghost mid = ints@;
    let mut tmp_idx: usize = 0;
    let mut ints_idx: usize = 48;
    let mut k: usize = 0;
    while k < 16
        invariant
            k <= 16,
            tmp_idx == 3 * k,
            ints_idx == 48 + 1 * k,
            tmp@ == t0,
            forall|x: int| 0 <= x < 48 ==> #[trigger] t0[x] == raw[x] & MASK16_4,
            forall|m: int|
                0 <= m < BLOCK_SIZE && !(48 <= m < 48 + 1 * k) ==> #[trigger] ints@[m] == mid[m],
            forall|kk: int, j: int|
                0 <= kk < k && 0 <= j < 1 ==> ints@[48 + 1 * kk + j] == #[trigger] decode12_tail(raw, kk, j),
        decreases 16 - k,
    {
        let ghost prev = ints@;
        let mut l0: u32 = tmp[tmp_idx] << 8;
        l0 |= tmp[tmp_idx + 1] << 4;
        l0 |= tmp[tmp_idx + 2];
        ints[ints_idx] = l0;
        proof {
            assert(ints@[48 + 1 * k + 0] == decode12_tail(raw, k as int, 0));
            assert forall|kk: int, j: int| 0 <= kk < k + 1 && 0 <= j < 1 implies ints@[48 + 1 * kk + j]
                == #[trigger] decode12_tail(raw, kk, j) by {
                if kk < k {
                    assert(prev[48 + 1 * kk + j] == decode12_tail(raw, kk, j));
                }
            }
            assert forall|m: int|
                0 <= m < BLOCK_SIZE && !(48 <= m < 48 + 1 * (k + 1)) implies #[trigger] ints@[m] == mid[m] by {
                assert(prev[m] == mid[m]);
            }
        }
        tmp_idx = tmp_idx + 3;
        ints_idx = ints_idx + 1;
        k = k + 1;
    }
}

/// Value `j` of group `kk` that `decode13` stitches together from the
/// masked remainders of the raw words.
pub open spec fn decode13_tail(raw: Seq<u32>, kk: int, j: int) -> u32 {
    if j == 0 {
        (((((raw[13 * kk + 0] & MASK16_3) << 10) | ((raw[13 * kk + 1] & MASK16_3) << 7)) | ((raw[13 * kk + 2] & MASK16_3) << 4)) | ((raw[13 * kk + 3] & MASK16_3) << 1)) | (((raw[13 * kk + 4] & MASK16_3) >> 2) & MASK16_1)
    } else if j == 1 {
        ((((((raw[13 * kk + 4] & MASK16_3) & MASK16_2) << 11) | ((raw[13 * kk + 5] & MASK16_3) << 8)) | ((raw[13 * kk + 6] & MASK16_3) << 5)) | ((raw[13 * kk + 7] & MASK16_3) << 2)) | (((raw[13 * kk + 8] & MASK16_3) >> 1) & MASK16_2)
    } else {
        ((((((raw[13 * kk + 8] & MASK16_3) & MASK16_1) << 12) | ((raw[13 * kk + 9] & MASK16_3) << 9)) | ((raw[13 * kk + 10] & MASK16_3) << 6)) | ((raw[13 * kk + 11] & MASK16_3) << 3)) | (raw[13 * kk + 12] & MASK16_3)
    }
}

pub(crate) fn decode13(input: &mut Reader<'_>, tmp: &mut [u32; BLOCK_SIZE], ints: &mut [u32; BLOCK_SIZE])
    ensures
        final(input).buf@ == old(input).buf@,
        final(input).pos == words_pos(old(input).buf@.len() as int, old(input).pos as int, 52),
        forall|m: int|
            0 <= m < BLOCK_SIZE && !(52 <= m < 64) ==> #[trigger] final(ints)@[m] == (if m < bands_len(
                52,
                3,
                13,
            ) {
                band(raw_words(old(input).buf@, old(input).pos as int, 52), 52, 3, 13, MASK16_13, m)
            } else {
                old(ints)@[m]
            }),
        forall|kk: int, j: int|
            0 <= kk < 4 && 0 <= j < 3 ==> final(ints)@[52 + 3 * kk + j] == #[trigger] decode13_tail(
                raw_words(old(input).buf@, old(input).pos as int, 52),
                kk,
                j,
            ),
{
    let ghost raw = raw_words(input.buf@, input.pos as int, 52);
    split_ints_tmp(input, 52, ints, 3, 13, MASK16_13, tmp, MASK16_3);
    let ghost t0 = tmp@;
    let ghost mid = ints@;
    let mut tmp_idx: usize = 0;
    let mut ints_idx: usize = 52;
    let mut k: usize = 0;
    while k < 4
        invariant
            k <= 4,
            tmp_idx == 13 * k,
            ints_idx == 52 + 3 * k,
            tmp@ == t0,
            forall|x: int| 0 <= x < 52 ==> #[trigger] t0[x] == raw[x] & MASK16_3,
            forall|m: int|
                0 <= m < BLOCK_SIZE && !(52 <= m < 52 + 3 * k) ==> #[trigger] ints@[m] == mid[m],
            forall|kk: int, j: int|
                0 <= kk < k && 0 <= j < 3 ==> ints@[52 + 3 * kk + j] == #[trigger] decode13_tail(raw, kk, j),
        decreases 4 - k,
    {
        let ghost prev = ints@;
        let mut l0: u32 = tmp[tmp_idx] << 10;
        l0 |= tmp[tmp_idx + 1] << 7;
        l0 |= tmp[tmp_idx + 2] << 4;
        l0 |= tmp[tmp_idx + 3] << 1;
        l0 |= (tmp[tmp_idx + 4] >> 2) & MASK16_1;
        ints[ints_idx] = l0;
        let mut l1: u32 = (tmp[tmp_idx + 4] & MASK16_2) << 11;
        l1 |= tmp[tmp_idx + 5] << 8;
        l1 |= tmp[tmp_idx + 6] << 5;
        l1 |= tmp[tmp_idx + 7] << 2;
        l1 |= (tmp[tmp_idx + 8] >> 1) & MASK16_2;
        ints[ints_idx + 1] = l1;
        let mut l2: u32 = (tmp[tmp_idx + 8] & MASK16_1) << 12;
        l2 |= tmp[tmp_idx + 9] << 9;
        l2 |= tmp[tmp_idx + 10] << 6;
        l2 |= tmp[tmp_idx + 11] << 3;
        l2 |= tmp[tmp_idx + 12];
        ints[ints_idx + 2] = l2;
        proof {
            assert(ints@[52 + 3 * k + 0] == decode13_tail(raw, k as int, 0));
            assert(ints@[52 + 3 * k + 1] == decode13_tail(raw, k as int, 1));
            assert(ints@[52 + 3 * k + 2] == decode13_tail(raw, k as int, 2));
            assert forall|kk: int, j: int| 0 <= kk < k + 1 && 0 <= j < 3 implies ints@[52 + 3 * kk + j]
                == #[trigger] decode13_tail(raw, kk, j) by {
                if kk < k {
                    assert(prev[52 + 3 * kk + j] == decode13_tail(raw, kk, j));
                }
            }
            assert forall|m: int|
                0 <= m < BLOCK_SIZE && !(52 <= m < 52 + 3 * (k + 1)) implies #[trigger] ints@[m] == mid[m] by {
                assert(prev[m] == mid[m]);
            }
        }
        tmp_idx = tmp_idx + 13;
        ints_idx = ints_idx + 3;
        k = k + 1;
    }
}

/// Value `j` of group `kk` that `decode14` stitches together from the
/// masked remainders of the raw words.
pub open spec fn decode14_tail(raw: Seq<u32>, kk: int, j: int) -> u32 {
    (((((((raw[7 * kk + 0] & MASK16_2) << 12) | ((raw[7 * kk + 1] & MASK16_2) << 10)) | ((raw[7 * kk + 2] & MASK16_2) << 8)) | ((raw[7 * kk + 3] & MASK16_2) << 6)) | ((raw[7 * kk + 4] & MASK16_2) << 4)) | ((raw[7 * kk + 5] & MASK16_2) << 2)) | (raw[7 * kk + 6] & MASK16_2)
}

pub(crate) fn decode14(input: &mut Reader<'_>, tmp: &mut [u32; BLOCK_SIZE], ints: &mut [u32; BLOCK_SIZE])
    ensures
        final(input).buf@ == old(input).buf@,
        final(input).pos == words_pos(old(input).buf@.len() as int, old(input).pos as int, 56),
        forall|m: int|
            0 <= m < BLOCK_SIZE && !(56 <= m < 64) ==> #[trigger] final(ints)@[m] == (if m < bands_len(
                56,
                2,
                14,
            ) {
                band(raw_words(old(input).buf@, old(input).pos as int, 56), 56, 2, 14, MASK16_14, m)
            } else {
                old(ints)@[m]
            }),
        forall|kk: int, j: int|
            0 <= kk < 8 && 0 <= j < 1 ==> final(ints)@[56 + 1 * kk + j] == #[trigger] decode14_tail(
                raw_words(old(input).buf@, old(input).pos as int, 56),
                kk,
                j,
            ),
{
    let ghost raw = raw_words(input.buf@, input.pos as int, 56);
    split_ints_tmp(input, 56, ints, 2, 14, MASK16_14, tmp, MASK16_2);
    let ghost t0 = tmp@;
    let ghost mid = ints@;
    let mut tmp_idx: usize = 0;
    let mut ints_idx: usize = 56;
    let mut k: usize = 0;
    while k < 8
        invariant
            k <= 8,
            tmp_idx == 7 * k,
            ints_idx == 56 + 1 * k,
            tmp@ == t0,
            forall|x: int| 0 <= x < 56 ==> #[trigger] t0[x] == raw[x] & MASK16_2,
            forall|m: int|
                0 <= m < BLOCK_SIZE && !(56 <= m < 56 + 1 * k) ==> #[trigger] ints@[m] == mid[m],
            forall|kk: int, j: int|
                0 <= kk < k && 0 <= j < 1 ==> ints@[56 + 1 * kk + j] == #[trigger] decode14_tail(raw, kk, j),
        decreases 8 - k,
    {
        let ghost prev = ints@;
        let mut l0: u32 = tmp[tmp_idx] << 12;
        l0 |= tmp[tmp_idx + 1] << 10;
        l0 |= tmp[tmp_idx + 2] << 8;
        l0 |= tmp[tmp_idx + 3] << 6;
        l0 |= tmp[tmp_idx + 4] << 4;
        l0 |= tmp[tmp_idx + 5] << 2;
        l0 |= tmp[tmp_idx + 6];
        ints[ints_idx] = l0;
        proof {
            assert(ints@[56 + 1 * k + 0] == decode14_tail(raw, k as int, 0));
            assert forall|kk: int, j: int| 0 <= kk < k + 1 && 0 <= j < 1 implies ints@[56 + 1 * kk + j]
                == #[trigger] decode14_tail(raw, kk, j) by {
                if kk < k {
                    assert(prev[56 + 1 * kk + j] == decode14_tail(raw, kk, j));
                }
            }
            assert forall|m: int|
                0 <= m < BLOCK_SIZE && !(56 <= m < 56 + 1 * (k + 1)) implies #[trigger] ints@[m] == mid[m] by {
                assert(prev[m] == mid[m]);
            }
        }
        tmp_idx = tmp_idx + 7;
        ints_idx = ints_idx + 1;
        k = k + 1;
    }
}

/// Value `j` of group `kk` that `decode15` stitches together from the
/// masked remainders of the raw words.
pub open spec fn decode15_tail(raw: Seq<u32>, kk: int, j: int) -> u32 {
    (((((((((((((((raw[15 * kk + 0] & MASK16_1) << 14) | ((raw[15 * kk + 1] & MASK16_1) << 13)) | ((raw[15 * kk + 2] & MASK16_1) << 12)) | ((raw[15 * kk + 3] & MASK16_1) << 11)) | ((raw[15 * kk + 4] & MASK16_1) << 10)) | ((raw[15 * kk + 5] & MASK16_1) << 9)) | ((raw[15 * kk + 6] & MASK16_1) << 8)) | ((raw[15 * kk + 7] & MASK16_1) << 7)) | ((raw[15 * kk + 8] & MASK16_1) << 6)) | ((raw[15 * kk + 9] & MASK16_1) << 5)) | ((raw[15 * kk + 10] & MASK16_1) << 4)) | ((raw[15 * kk + 11] & MASK16_1) << 3)) | ((raw[15 * kk + 12] & MASK16_1) << 2)) | ((raw[15 * kk + 13] & MASK16_1) << 1)) | (raw[15 * kk + 14] & MASK16_1)
}

pub(crate) fn decode15(input: &mut Reader<'_>, tmp: &mut [u32; BLOCK_SIZE], ints: &mut [u32; BLOCK_SIZE])
    ensures
        final(input).buf@ == old(input).buf@,
        final(input).pos == words_pos(old(input).buf@.len() as int, old(input).pos as int, 60),
        forall|m: int|
            0 <= m < BLOCK_SIZE && !(60 <= m < 64) ==> #[trigger] final(ints)@[m] == (if m < bands_len(
                60,
                1,
                15,
            ) {
                band(raw_words(old(input).buf@, old(input).pos as int, 60), 60, 1, 15, MASK16_15, m)
            } else {
                old(ints)@[m]
            }),
        forall|kk: int, j: int|
            0 <= kk < 4 && 0 <= j < 1 ==> final(ints)@[60 + 1 * kk + j] == #[trigger] decode15_tail(
                raw_words(old(input).buf@, old(input).pos as int, 60),
                kk,
                j,
            ),
{
    let ghost raw = raw_words(input.buf@, input.pos as int, 60);
    split_ints_tmp(input, 60, ints, 1, 15, MASK16_15, tmp, MASK16_1);
    let ghost t0 = tmp@;
    let ghost mid = ints@;
    let mut tmp_idx: usize = 0;
    let mut ints_idx: usize = 60;
    let mut k: usize = 0;
    while k < 4
        invariant
            k <= 4,
            tmp_idx == 15 * k,
            ints_idx == 60 + 1 * k,
            tmp@ == t0,
            forall|x: int| 0 <= x < 60 ==> #[trigger] t0[x] == raw[x] & MASK16_1,
            forall|m: int|
                0 <= m < BLOCK_SIZE && !(60 <= m < 60 + 1 * k) ==> #[trigger] ints@[m] == mid[m],
            forall|kk: int, j: int|
                0 <= kk < k && 0 <= j < 1 ==> ints@[60 + 1 * kk + j] == #[trigger] decode15_tail(raw, kk, j),
        decreases 4 - k,
    {
        let ghost prev = ints@;
        let mut l0: u32 = tmp[tmp_idx] << 14;
        l0 |= tmp[tmp_idx + 1] << 13;
        l0 |= tmp[tmp_idx + 2] << 12;
        l0 |= tmp[tmp_idx + 3] << 11;
        l0 |= tmp[tmp_idx + 4] << 10;
        l0 |= tmp[tmp_idx + 5] << 9;
        l0 |= tmp[tmp_idx + 6] << 8;
        l0 |= tmp[tmp_idx + 7] << 7;
        l0 |= tmp[tmp_idx + 8] << 6;
        l0 |= tmp[tmp_idx + 9] << 5;
        l0 |= tmp[tmp_idx + 10] << 4;
        l0 |= tmp[tmp_idx + 11] << 3;
        l0 |= tmp[tmp_idx + 12] << 2;
        l0 |= tmp[tmp_idx + 13] << 1;
        l0 |= tmp[tmp_idx + 14];
        ints[ints_idx] = l0;
        proof {
            assert(ints@[60 + 1 * k + 0] == decode15_tail(raw, k as int, 0));
            assert forall|kk: int, j: int| 0 <= kk < k + 1 && 0 <= j < 1 implies ints@[60 + 1 * kk + j]
                == #[trigger] decode15_tail(raw, kk, j) by {
                if kk < k {
                    assert(prev[60 + 1 * kk + j] == decode15_tail(raw, kk, j));
                }
            }
            assert forall|m: int|
                0 <= m < BLOCK_SIZE && !(60 <= m < 60 + 1 * (k + 1)) implies #[trigger] ints@[m] == mid[m] by {
                assert(prev[m] == mid[m]);
            }
        }
        tmp_idx = tmp_idx + 15;
        ints_idx = ints_idx + 1;
        k = k + 1;
    }
}

} // verus!
