//! Writing the format: `encode_list` appends `pef_bytes` of the list.

use vstd::arithmetic::power2::{lemma2_to64, lemma_pow2_pos, pow2};
use vstd::bits::lemma_u64_shr_is_div;
use vstd::prelude::*;
use vstd::std_specs::bits::axiom_u64_leading_zeros;

use super::bits::{
    bit_at, bitn, ceil8, fields_bits, lemma_bit_at_split, lemma_bitn_bound, lemma_bitn_high,
    lemma_bitn_mod, lemma_bitn_zero, lemma_pack_eq, lemma_u64_below, lemma_u64_bit,
    lemma_u64_low_mask, lemma_u8_or_shl, set_bit, BitWriter,
};
use super::format::{
    bitmap_of, bits_req, ef_high_pos, ef_highs, ef_lows, lemma_bits_req_is, lemma_ef_congr,
    lemma_fields_bit, lemma_low_width, lemma_partition, lemma_uppers_increasing, low_width_of,
    part_count, part_len, part_start, part_type, part_universe, payload_of, payload_upto, pef_bytes,
    pef_valid, seg_locals, upper, upper_low_width, uppers, PARTITION_SIZE, TYPE_ALL_ONES,
    TYPE_BITMAP, TYPE_ELIAS_FANO,
};
use super::rank::is_pos;
use crate::bytes::append_bytes;
use crate::stream::{below, strictly_increasing};

verus! {

/// Bits needed to write `value`: zero for zero.
pub fn bits_required(value: u64) -> (r: u8)
    ensures
        r as nat == bits_req(value as nat),
        r <= 64,
{
    let lz = value.leading_zeros();
    proof {
        axiom_u64_leading_zeros(value);
        let b = (64 - lz) as nat;
        lemma_u64_below(value);
        if value != 0 {
            let top = (63 - lz) as u64;
            lemma_u64_bit(value, top);
            assert(bitn(value as nat, top as nat));
            if (value as nat) < pow2(top as nat) {
                lemma_bitn_high(value as nat, top as nat, top as nat);
            }
            assert forall|k: nat| b <= k < 64 implies !#[trigger] bitn(value as nat, k) by {
                lemma_u64_bit(value, k as u64);
                assert((value >> (k as u64)) & 1u64 == 0u64);
            }
            lemma_bitn_bound(value as nat, b, 64);
        }
        lemma2_to64();
        lemma_bits_req_is(value as nat, b);
    }
    (64 - lz) as u8
}

/// Width of the low parts for `count` values below `universe`.
pub fn low_width(universe: u64, count: usize) -> (r: u8)
    ensures
        r as nat == low_width_of(universe as nat, count as nat),
        r < 64,
{
    if count == 0 {
        return 0;
    }
    let quotient = universe / count as u64;
    let b = bits_required(quotient);
    if b == 0 {
        0
    } else {
        b - 1
    }
}

/// `ceil(x / 8)`.
pub fn div_ceil8(x: u64) -> (r: u64)
    ensures
        r == ceil8(x as int),
{
    x / 8 + if x % 8 != 0 {
        1
    } else {
        0
    }
}

/// The Elias-Fano arrays of `values[lo..hi]` taken relative to `start`,
/// all below `universe`, with low width `low_width`.
pub fn encode_elias_fano(
    values: &[u32],
    lo: usize,
    hi: usize,
    start: u64,
    universe: u64,
    low_width: u8,
) -> (r: (Vec<u8>, Vec<u8>))
    requires
        lo < hi <= values@.len(),
        values@.len() * 64 <= usize::MAX,
        strictly_increasing(values@.subrange(lo as int, hi as int)),
        start <= values@[lo as int],
        values@[hi - 1] - start < universe <= 0x1_0000_0000,
        hi - lo <= universe,
        low_width == low_width_of(universe as nat, (hi - lo) as nat),
    ensures
        r.0@ == ef_lows(seg_locals(values@, lo as int, start as nat), (hi - lo) as int, low_width as nat),
        r.1@ == ef_highs(
            seg_locals(values@, lo as int, start as nat),
            (hi - lo) as int,
            universe as nat,
            low_width as nat,
        ),
{
    let ghost m = (hi - lo) as int;
    let ghost vals = seg_locals(values@, lo as int, start as nat);
    let ghost lw = low_width as nat;
    let ghost pos = ef_high_pos(vals, lw);
    proof {
        lemma_low_width(universe as nat, m as nat);
        lemma_pow2_pos(lw);
        lemma_u64_shr_is_div(universe, low_width as u64);
    }
    let mut lows = BitWriter::new();
    let high_bit_len = (hi - lo) + (universe >> low_width as u64) as usize;
    let ghost hb = high_bit_len as int;
    let mut highs = vec![0u8; (div_ceil8(high_bit_len as u64)) as usize];
    proof {
        assert forall|q: int| 0 <= q < 8 * highs@.len() implies #[trigger] bit_at(highs@, q) == (q
            < hb && is_pos(pos, 0, q)) by {
            lemma_bit_at_split(highs@, q / 8, q % 8);
            lemma_bitn_zero((q % 8) as nat);
        }
        assert(lows.bits() =~= Seq::new(0, |i: int| fields_bits(vals, lw)(i)));
    }
    let low_mask: u64 = if low_width == 0 {
        0
    } else {
        proof {
            lemma_u64_low_mask(0, low_width as u64);
        }
        (1u64 << low_width as u64) - 1
    };
    let mut index: usize = 0;
    while index < hi - lo
        invariant
            lo < hi <= values@.len(),
            values@.len() * 64 <= usize::MAX,
            m == hi - lo,
            vals == seg_locals(values@, lo as int, start as nat),
            lw == low_width,
            pos == ef_high_pos(vals, lw),
            strictly_increasing(values@.subrange(lo as int, hi as int)),
            start <= values@[lo as int],
            values@[hi - 1] - start < universe <= 0x1_0000_0000,
            universe as nat / pow2(lw) < 2 * m,
            pow2(lw) > 0,
            hb == m + universe as nat / pow2(lw),
            lw < 64,
            low_width == 0 ==> low_mask == 0,
            low_width > 0 ==> low_mask == (1u64 << low_width as u64) - 1,
            index <= m,
            lows.wf(),
            lows.bits() == Seq::new((index * lw) as nat, |i: int| fields_bits(vals, lw)(i)),
            highs@.len() == ceil8(hb),
            forall|q: int|
                0 <= q < 8 * highs@.len() ==> #[trigger] bit_at(highs@, q) == (q < hb && is_pos(
                    pos,
                    index as int,
                    q,
                )),
        decreases m - index,
    {
        let value = values[lo + index];
        proof {
            let sub = values@.subrange(lo as int, hi as int);
            if index > 0 {
                assert(sub[0] < sub[index as int]);
            }
            if index + 1 < m {
                assert(sub[index as int] < sub[m - 1]);
            }
        }
        let local = value as u64 - start;
        proof {
            assert(vals(index as int) == local as nat);
            assert(local < universe);
            assert((index + 1) * lw == index * lw + lw) by (nonlinear_arith);
            assert(index * lw + lw + 8 <= usize::MAX) by (nonlinear_arith)
                requires
                    index < m,
                    m <= values@.len(),
                    values@.len() * 64 <= usize::MAX,
                    lw < 64,
            ;
        }
        let ghost before = lows.bits();
        let field = local & low_mask;
        proof {
            if low_width > 0 {
                lemma_u64_low_mask(local, low_width as u64);
            }
        }
        lows.push(field, low_width);
        proof {
            assert forall|k: int| 0 <= k < lw implies #[trigger] bitn(field as nat, k as nat)
                == bitn(local as nat, k as nat) by {
                lemma_bitn_mod(local as nat, lw, k as nat);
            }
            assert forall|i: int| 0 <= i < (index + 1) * lw implies #[trigger] lows.bits()[i]
                == fields_bits(vals, lw)(i) by {
                if i >= index * lw {
                    lemma_fields_bit(vals, lw, index as int, i - index * lw);
                }
            }
            assert(lows.bits() =~= Seq::new(
                ((index + 1) * lw) as nat,
                |i: int| fields_bits(vals, lw)(i),
            ));
        }
        proof {
            lemma_u64_shr_is_div(local, low_width as u64);
            assert(local as nat / pow2(lw) <= universe as nat / pow2(lw)) by {
                vstd::arithmetic::div_mod::lemma_div_is_ordered(
                    local as int,
                    universe as int,
                    pow2(lw) as int,
                );
            }
        }
        let p = (local >> low_width as u64) as usize + index;
        proof {
            assert(p == pos(index as int));
            assert(p < hb);
            assert(p / 8 < highs@.len());
        }
        let ghost hbefore = highs@;
        set_bit(&mut highs, p);
        proof {
            assert forall|q: int| 0 <= q < 8 * highs@.len() implies #[trigger] bit_at(highs@, q)
                == (q < hb && is_pos(pos, index + 1, q)) by {
                assert(bit_at(hbefore, q) == (q < hb && is_pos(pos, index as int, q)));
                if is_pos(pos, index as int, q) {
                    let w = choose|w: int| 0 <= w < index && #[trigger] pos(w) == q;
                    assert(is_pos(pos, index + 1, q));
                }
                if q == p {
                    assert(pos(index as int) == q);
                    assert(is_pos(pos, index + 1, q));
                }
                if is_pos(pos, index + 1, q) && q != p {
                    let w = choose|w: int| 0 <= w < index + 1 && #[trigger] pos(w) == q;
                    assert(is_pos(pos, index as int, q));
                }
            }
        }
        index = index + 1;
    }
    let lows_bytes = lows.finish();
    proof {
        lemma_pack_eq(lows_bytes@, m * lw, fields_bits(vals, lw));
        lemma_pack_eq(highs@, hb, |q: int| is_pos(pos, m, q));
    }
    (lows_bytes, highs)
}

/// The bitmap of `values[lo..hi]` relative to `start` over `[0, universe)`.
pub fn encode_bitmap(values: &[u32], lo: usize, hi: usize, start: u64, universe: u64) -> (r: Vec<u8>)
    requires
        lo <= hi <= values@.len(),
        strictly_increasing(values@.subrange(lo as int, hi as int)),
        lo < hi ==> start <= values@[lo as int],
        lo < hi ==> values@[hi - 1] - start < universe,
        universe <= 0x1_0000_0000,
    ensures
        r@ == bitmap_of(seg_locals(values@, lo as int, start as nat), (hi - lo) as int, universe as nat),
{
    let ghost m = (hi - lo) as int;
    let ghost vals = seg_locals(values@, lo as int, start as nat);
    let ghost pos = |i: int| vals(i) as int;
    let mut bitmap = vec![0u8; div_ceil8(universe) as usize];
    proof {
        assert forall|q: int| 0 <= q < 8 * bitmap@.len() implies #[trigger] bit_at(bitmap@, q) == (q
            < universe && is_pos(pos, 0, q)) by {
            lemma_bit_at_split(bitmap@, q / 8, q % 8);
            lemma_bitn_zero((q % 8) as nat);
        }
    }
    let mut index: usize = lo;
    while index < hi
        invariant
            lo <= index <= hi <= values@.len(),
            m == hi - lo,
            vals == seg_locals(values@, lo as int, start as nat),
            pos == (|i: int| vals(i) as int),
            strictly_increasing(values@.subrange(lo as int, hi as int)),
            lo < hi ==> start <= values@[lo as int],
            lo < hi ==> values@[hi - 1] - start < universe,
            universe <= 0x1_0000_0000,
            bitmap@.len() == ceil8(universe as int),
            forall|q: int|
                0 <= q < 8 * bitmap@.len() ==> #[trigger] bit_at(bitmap@, q) == (q < universe
                    && is_pos(pos, index - lo, q)),
        decreases hi - index,
    {
        let value = values[index];
        proof {
            let sub = values@.subrange(lo as int, hi as int);
            if index > lo {
                assert(sub[0] < sub[index - lo]);
            }
            if index + 1 < hi {
                assert(sub[index - lo] < sub[m - 1]);
            }
        }
        let local = (value as u64 - start) as usize;
        let ghost before = bitmap@;
        proof {
            assert(pos(index - lo) == local);
        }
        set_bit(&mut bitmap, local);
        proof {
            let c = (index - lo) as int;
            assert forall|q: int| 0 <= q < 8 * bitmap@.len() implies #[trigger] bit_at(bitmap@, q)
                == (q < universe && is_pos(pos, c + 1, q)) by {
                assert(bit_at(before, q) == (q < universe && is_pos(pos, c, q)));
                if is_pos(pos, c, q) {
                    let w = choose|w: int| 0 <= w < c && #[trigger] pos(w) == q;
                    assert(is_pos(pos, c + 1, q));
                }
                if q == local {
                    assert(pos(c) == q);
                    assert(is_pos(pos, c + 1, q));
                }
                if is_pos(pos, c + 1, q) && q != local {
                    let w = choose|w: int| 0 <= w < c + 1 && #[trigger] pos(w) == q;
                    assert(is_pos(pos, c, q));
                }
            }
        }
        index = index + 1;
    }
    proof {
        lemma_pack_eq(bitmap@, universe as int, |q: int| is_pos(|i: int| vals(i) as int, m, q));
    }
    bitmap
}

/// Or partition `j`'s two type bits into the type array.
fn set_type_bits(types: &mut Vec<u8>, j: usize, partition_type: u8, tf: Ghost<spec_fn(int) -> bool>)
    requires
        partition_type <= 2,
        j / 4 < old(types)@.len(),
        forall|q: int|
            0 <= q < 8 * old(types)@.len() ==> #[trigger] bit_at(old(types)@, q) == (q < 2 * j
                && tf@(q)),
        forall|d: int| 0 <= d < 2 ==> #[trigger] tf@(2 * j + d) == bitn(partition_type as nat, d as nat),
    ensures
        final(types)@.len() == old(types)@.len(),
        forall|q: int|
            0 <= q < 8 * final(types)@.len() ==> #[trigger] bit_at(final(types)@, q) == (q < 2 * (j
                + 1) && tf@(q)),
{
    let shift = ((j % 4) * 2) as u8;
    let byte = types[j / 4];
    proof {
        lemma2_to64();
        assert(pow2(shift as nat) <= 64) by {
            assert(shift == 0 || shift == 2 || shift == 4 || shift == 6);
        }
        assert(partition_type as nat * pow2(shift as nat) < 256) by (nonlinear_arith)
            requires
                partition_type <= 2,
                pow2(shift as nat) <= 64,
        ;
        lemma_u8_or_shl(byte, partition_type, shift);
    }
    let ghost tbefore = types@;
    types.set(j / 4, byte | (partition_type << shift));
    proof {
        assert forall|q: int| 0 <= q < 8 * types@.len() implies #[trigger] bit_at(types@, q) == (q
            < 2 * (j + 1) && tf@(q)) by {
            assert(bit_at(tbefore, q) == (q < 2 * j && tf@(q)));
            lemma_bit_at_split(types@, q / 8, q % 8);
            lemma_bit_at_split(tbefore, q / 8, q % 8);
            if q / 8 == j / 4 {
                let d = q % 8 - shift;
                if 0 <= d < 2 {
                    assert(q == 2 * j + d);
                } else if d >= 2 {
                    lemma_bitn_high(partition_type as nat, 2, d as nat);
                    assert(q >= 2 * (j + 1));
                } else {
                    assert(q < 2 * j);
                }
            } else {
                if q / 8 < j / 4 {
                    assert(q < 2 * j);
                } else {
                    assert(q >= 2 * (j + 1));
                }
            }
        }
    }
}

/// Partition `j`: set its type bits and append its payload. Returns its
/// maximum.
fn encode_one(
    universe: u32,
    list: &[u32],
    j: usize,
    start: u64,
    types: &mut Vec<u8>,
    payload: &mut Vec<u8>,
) -> (hi_value: u64)
    requires
        pef_valid(universe, list@),
        j < part_count(list@.len()),
        start as nat == part_start(list@, j as int),
        old(types)@.len() == ceil8((2 * part_count(list@.len())) as int),
        forall|q: int|
            0 <= q < 8 * old(types)@.len() ==> #[trigger] bit_at(old(types)@, q) == (q < 2 * j
                && fields_bits(|i: int| part_type(list@, i), 2)(q)),
        old(payload)@ == payload_upto(list@, j as int),
    ensures
        hi_value as nat == upper(list@, j as int),
        final(types)@.len() == old(types)@.len(),
        forall|q: int|
            0 <= q < 8 * final(types)@.len() ==> #[trigger] bit_at(final(types)@, q) == (q < 2 * (j
                + 1) && fields_bits(|i: int| part_type(list@, i), 2)(q)),
        final(payload)@ == payload_upto(list@, j + 1),
{
    let ghost l = list@;
    let n = list.len();
    let ghost tf = fields_bits(|i: int| part_type(l, i), 2);
    proof {
        lemma_partition(universe, l, j as int);
    }
    let lo = PARTITION_SIZE * j;
    let hi = if n - lo < PARTITION_SIZE {
        n
    } else {
        lo + PARTITION_SIZE
    };
    let len = hi - lo;
    let ghost lenj = part_len(n as nat, j as int);
    assert(len == lenj);
    let hi_value = list[hi - 1] as u64;
    assert(hi_value as nat == upper(l, j as int));
    let local_universe = hi_value + 1 - start;
    assert(local_universe as nat == part_universe(l, j as int));
    let ef_l = low_width(local_universe, len);
    proof {
        lemma_low_width(local_universe as nat, len as nat);
        lemma_pow2_pos(ef_l as nat);
        lemma_u64_shr_is_div(local_universe, ef_l as u64);
    }
    let bitmap_bytes = div_ceil8(local_universe);
    assert(len as u64 * ef_l as u64 <= 128 * 64) by (nonlinear_arith)
        requires
            len <= 128,
            ef_l < 64,
    ;
    let ef_bytes = div_ceil8(len as u64 * ef_l as u64) + div_ceil8(
        len as u64 + (local_universe >> ef_l as u64),
    );
    let partition_type: u8 = if local_universe == len as u64 {
        TYPE_ALL_ONES
    } else if bitmap_bytes <= ef_bytes {
        TYPE_BITMAP
    } else {
        TYPE_ELIAS_FANO
    };
    assert(partition_type as nat == part_type(l, j as int));
    proof {
        assert forall|d: int| 0 <= d < 2 implies #[trigger] tf(2 * j + d) == bitn(
            partition_type as nat,
            d as nat,
        ) by {
            lemma_fields_bit(|i: int| part_type(l, i), 2, j as int, d);
        }
    }
    set_type_bits(types, j, partition_type, Ghost(tf));
    let ghost pbefore = payload@;
    if partition_type == TYPE_BITMAP {
        let bitmap = encode_bitmap(list, lo, hi, start, local_universe);
        append_bytes(payload, &bitmap);
    } else if partition_type == TYPE_ELIAS_FANO {
        let (lows, highs) = encode_elias_fano(list, lo, hi, start, local_universe, ef_l);
        append_bytes(payload, &lows);
        append_bytes(payload, &highs);
    }
    proof {
        assert(payload@ =~= payload_upto(l, j + 1));
    }
    hi_value
}

/// The partition payloads, their offsets and their type bits.
fn encode_partitions(
    universe: u32,
    list: &[u32],
    partition_count: usize,
    types: &mut Vec<u8>,
    offsets: &mut Vec<u64>,
    payload: &mut Vec<u8>,
)
    requires
        pef_valid(universe, list@),
        list@.len() > 0,
        partition_count == part_count(list@.len()),
        old(types)@.len() == ceil8(2 * partition_count),
        forall|q: int|
            0 <= q < 8 * old(types)@.len() ==> !#[trigger] bit_at(old(types)@, q),
        old(offsets)@.len() == 0,
        old(payload)@.len() == 0,
    ensures
        final(types)@.len() == ceil8(2 * partition_count),
        forall|q: int|
            0 <= q < 8 * final(types)@.len() ==> #[trigger] bit_at(final(types)@, q) == (q < 2
                * partition_count && fields_bits(|i: int| part_type(list@, i), 2)(q)),
        final(offsets)@.len() == partition_count,
        forall|i: int|
            0 <= i < partition_count ==> #[trigger] final(offsets)@[i] as nat == payload_upto(
                list@,
                i,
            ).len(),
        final(payload)@ == payload_upto(list@, partition_count as int),
{
    let ghost l = list@;
    let n = list.len();
    let ghost k = partition_count as int;
    let ghost tf = fields_bits(|i: int| part_type(l, i), 2);
    proof {
        assert(payload@ =~= payload_upto(l, 0));
        lemma_partition(universe, l, 0);
    }
    let mut start: u64 = 0;
    let mut j: usize = 0;
    while j < partition_count
        invariant
            pef_valid(universe, l),
            l == list@,
            n == l.len(),
            k == partition_count,
            k == part_count(n as nat),
            j <= k,
            tf == fields_bits(|i: int| part_type(l, i), 2),
            types@.len() == ceil8(2 * k),
            forall|q: int|
                0 <= q < 8 * types@.len() ==> #[trigger] bit_at(types@, q) == (q < 2 * j && tf(q)),
            offsets@.len() == j,
            forall|i: int| 0 <= i < j ==> #[trigger] offsets@[i] as nat == payload_upto(l, i).len(),
            payload@ == payload_upto(l, j as int),
            j < k ==> start as nat == part_start(l, j as int),
        decreases k - j,
    {
        proof {
            lemma_partition(universe, l, j as int);
        }
        offsets.push(payload.len() as u64);
        let hi_value = encode_one(universe, list, j, start, types, payload);
        start = hi_value + 1;
        j = j + 1;
    }
}

/// The partition maxima, in order.
fn upper_bounds_of(universe: u32, list: &[u32], partition_count: usize) -> (r: Vec<u32>)
    requires
        pef_valid(universe, list@),
        partition_count == part_count(list@.len()),
    ensures
        r@.len() == partition_count,
        forall|i: int| 0 <= i < partition_count ==> #[trigger] r@[i] as nat == upper(list@, i),
{
    let ghost l = list@;
    let n = list.len();
    let ghost k = partition_count as int;
    let mut upper_bounds: Vec<u32> = Vec::new();
    let mut j: usize = 0;
    while j < partition_count
        invariant
            pef_valid(universe, l),
            l == list@,
            n == l.len(),
            k == partition_count,
            k == part_count(n as nat),
            j <= k,
            upper_bounds@.len() == j,
            forall|i: int| 0 <= i < j ==> #[trigger] upper_bounds@[i] as nat == upper(l, i),
        decreases k - j,
    {
        proof {
            lemma_partition(universe, l, j as int);
        }
        let hi = if n - PARTITION_SIZE * j < PARTITION_SIZE {
            n
        } else {
            PARTITION_SIZE * j + PARTITION_SIZE
        };
        upper_bounds.push(list[hi - 1]);
        j = j + 1;
    }
    upper_bounds
}

/// The payload offsets, `w` bits each.
fn pack_offsets(universe: u32, list: &[u32], offsets: &Vec<u64>, partition_count: usize, offset_width: u8) -> (r: Vec<u8>)
    requires
        pef_valid(universe, list@),
        list@.len() > 0,
        partition_count == part_count(list@.len()),
        offsets@.len() == partition_count,
        forall|t: int|
            0 <= t < partition_count ==> #[trigger] offsets@[t] as nat == payload_upto(list@, t).len(),
        offset_width <= 64,
    ensures
        r@ == super::bits::pack(
            (partition_count * offset_width) as int,
            fields_bits(|t: int| payload_upto(list@, t).len(), offset_width as nat),
        ),
{
    let ghost l = list@;
    let n = list.len();
    let ghost k = partition_count as int;
    proof {
        lemma_partition(universe, l, 0);
    }
    let ghost w = offset_width as nat;
    let ghost of = fields_bits(|i: int| payload_upto(l, i).len(), w);
    let mut packed = BitWriter::new();
    proof {
        assert(packed.bits() =~= Seq::new(0, |b: int| of(b)));
    }
    let mut i: usize = 0;
    while i < partition_count
        invariant
            pef_valid(universe, l),
            n == l.len(),
            k == partition_count,
            k <= n,
            i <= k,
            offsets@.len() == k,
            forall|t: int| 0 <= t < k ==> #[trigger] offsets@[t] as nat == payload_upto(l, t).len(),
            w == offset_width,
            w <= 64,
            of == fields_bits(|t: int| payload_upto(l, t).len(), w),
            packed.wf(),
            packed.bits() == Seq::new((i * w) as nat, |b: int| of(b)),
        decreases k - i,
    {
        proof {
            assert((i + 1) * w == i * w + w) by (nonlinear_arith);
            assert(i * w + w + 8 <= usize::MAX) by (nonlinear_arith)
                requires
                    i < k,
                    k <= n,
                    n * 64 <= usize::MAX,
                    w <= 64,
            ;
        }
        let offset = offsets[i];
        packed.push(offset, offset_width);
        proof {
            assert forall|b: int| 0 <= b < (i + 1) * w implies #[trigger] packed.bits()[b] == of(b) by {
                if b >= i * w {
                    lemma_fields_bit(|t: int| payload_upto(l, t).len(), w, i as int, b - i * w);
                }
            }
            assert(packed.bits() =~= Seq::new(((i + 1) * w) as nat, |b: int| of(b)));
        }
        i = i + 1;
    }
    let packed_offsets = packed.finish();
    proof {
        assert(k * w >= 0) by (nonlinear_arith)
            requires
                k >= 0,
        ;
        lemma_pack_eq(packed_offsets@, k * w, of);
    }
    packed_offsets
}

/// Append the encoding of `list` to `out`.
#[verifier::spinoff_prover]
#[verifier::rlimit(40)]
pub fn encode_list(universe: u32, list: &[u32], out: &mut Vec<u8>)
    requires
        pef_valid(universe, list@),
    ensures
        final(out)@ == old(out)@ + pef_bytes(universe, list@),
{
    let ghost l = list@;
    if list.len() == 0 {
        reveal(pef_bytes);
        assert(old(out)@ + pef_bytes(universe, l) =~= old(out)@);
        return;
    }
    let n = list.len();
    let partition_count = n / PARTITION_SIZE + if n % PARTITION_SIZE != 0 {
        1
    } else {
        0
    };
    let ghost k = partition_count as int;
    assert(k == part_count(n as nat));
    proof {
        lemma_partition(universe, l, 0);
    }
    let upper_l = low_width(universe as u64, partition_count);
    let upper_bounds = upper_bounds_of(universe, list, partition_count);
    proof {
        assert forall|a: int, b: int| 0 <= a < b < upper_bounds@.subrange(0, k).len() implies #[trigger]
            upper_bounds@.subrange(0, k)[a] < #[trigger] upper_bounds@.subrange(0, k)[b] by {
            lemma_uppers_increasing(universe, l, a, b);
        }
        lemma_partition(universe, l, k - 1);
        lemma_partition(universe, l, 0);
    }
    let (upper_lows, upper_highs) = encode_elias_fano(
        &upper_bounds,
        0,
        partition_count,
        0,
        universe as u64,
        upper_l,
    );
    proof {
        lemma_ef_congr(
            seg_locals(upper_bounds@, 0, 0),
            uppers(l),
            k,
            universe as nat,
            upper_l as nat,
        );
    }
    let mut types = vec![0u8; partition_count / 4 + if partition_count % 4 != 0 {
        1
    } else {
        0
    }];
    let ghost tf = fields_bits(|i: int| part_type(l, i), 2);
    proof {
        assert forall|q: int| 0 <= q < 8 * types@.len() implies #[trigger] bit_at(types@, q) == (q
            < 2 * 0 && tf(q)) by {
            lemma_bit_at_split(types@, q / 8, q % 8);
            lemma_bitn_zero((q % 8) as nat);
        }
    }
    let mut offsets: Vec<u64> = Vec::new();
    let mut payload: Vec<u8> = Vec::new();
    encode_partitions(universe, list, partition_count, &mut types, &mut offsets, &mut payload);
    let offset_width = bits_required(payload.len() as u64);
    let ghost w = offset_width as nat;
    let ghost of = fields_bits(|i: int| payload_upto(l, i).len(), w);
    let packed_offsets = pack_offsets(universe, list, &offsets, partition_count, offset_width);
    proof {
        assert(k * w >= 0) by (nonlinear_arith)
            requires
                k >= 0,
        ;
        lemma_pack_eq(types@, 2 * k, tf);
        assert(payload@ == payload_of(l));
    }
    let ghost o0 = out@;
    out.push(upper_l);
    out.push(offset_width);
    append_bytes(out, &upper_lows);
    append_bytes(out, &upper_highs);
    append_bytes(out, &types);
    append_bytes(out, &packed_offsets);
    append_bytes(out, &payload);
    proof {
        reveal(pef_bytes);
        assert(upper_l as nat == upper_low_width(universe, l));
        assert(out@ =~= o0 + pef_bytes(universe, l));
    }
}

} // verus!
