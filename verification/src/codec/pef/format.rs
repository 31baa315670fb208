//! The byte format, stated over the list it holds.
//!
//! A list of `n > 0` values is cut into partitions of 128 (the last may be
//! shorter). The buffer holds, in order:
//!
//! * byte 0: the low width `L` of the upper level; byte 1: the offset
//!   width `W`;
//! * the upper level, a plain Elias-Fano sequence of the partition maxima
//!   over the whole universe: their low `L` bits packed, then the high bit
//!   array;
//! * a 2-bit type per partition (0 all-ones, 1 bitmap, 2 Elias-Fano);
//! * a `W`-bit payload offset per partition;
//! * the payloads: nothing for an all-ones partition, a bitmap over the
//!   partition's local universe, or the partition's own Elias-Fano lows and
//!   highs. Values inside a partition are local to its start, one past the
//!   previous maximum.
//!
//! Bit arrays are least significant bit first and padded with zero bits to
//! whole bytes.

use vstd::arithmetic::power2::{pow2, lemma_pow2_pos, lemma_pow2_strictly_increases, lemma2_to64};
use vstd::arithmetic::div_mod::{lemma_fundamental_div_mod, lemma_fundamental_div_mod_converse};
use vstd::prelude::*;

use super::bits::{bitn, ceil8, fields_bits, lemma_pack_bit, lemma_pack_eq, pack};
use super::rank::is_pos;
use crate::stream::{below, strictly_increasing};

verus! {

pub const PARTITION_SIZE: usize = 128;

pub const TYPE_ALL_ONES: u8 = 0;

pub const TYPE_BITMAP: u8 = 1;

pub const TYPE_ELIAS_FANO: u8 = 2;

/// Bits needed to write `v`; zero needs none.
pub open spec fn bits_req(v: nat) -> nat
    decreases v,
{
    if v == 0 {
        0
    } else {
        1 + bits_req(v / 2)
    }
}

/// Width of the low parts of an Elias-Fano sequence of `count` values below
/// `universe`: one less than the bits of `universe / count`.
pub open spec fn low_width_of(universe: nat, count: nat) -> nat {
    if count == 0 || bits_req(universe / count) == 0 {
        0
    } else {
        (bits_req(universe / count) - 1) as nat
    }
}

/// The low parts of an Elias-Fano sequence: `m` fields of `lw` bits.
pub open spec fn ef_lows(vals: spec_fn(int) -> nat, m: int, lw: nat) -> Seq<u8> {
    pack(m * lw, fields_bits(vals, lw))
}

/// Where value `i`'s high part puts its bit: its high part plus `i`.
pub open spec fn ef_high_pos(vals: spec_fn(int) -> nat, lw: nat) -> spec_fn(int) -> int {
    |i: int| (vals(i) / pow2(lw) + i) as int
}

/// The high bit array: one set bit per value, `m + universe / 2^lw` bits.
pub open spec fn ef_highs(vals: spec_fn(int) -> nat, m: int, universe: nat, lw: nat) -> Seq<u8> {
    pack(m + universe / pow2(lw), |q: int| is_pos(ef_high_pos(vals, lw), m, q))
}

/// A bitmap over `[0, universe)` with the values' bits set.
pub open spec fn bitmap_of(vals: spec_fn(int) -> nat, m: int, universe: nat) -> Seq<u8> {
    pack(universe as int, |q: int| is_pos(|i: int| vals(i) as int, m, q))
}

/// Values `s[lo + i] - start`.
pub open spec fn seg_locals(s: Seq<u32>, lo: int, start: nat) -> spec_fn(int) -> nat {
    |i: int| (s[lo + i] - start) as nat
}

pub open spec fn part_count(n: nat) -> nat {
    (n + 127) / 128
}

/// Values in partition `j`.
pub open spec fn part_len(n: nat, j: int) -> int {
    if n - 128 * j < 128 {
        n - 128 * j
    } else {
        128
    }
}

/// The maximum of partition `j`: its last value.
pub open spec fn upper(l: Seq<u32>, j: int) -> nat {
    l[128 * j + part_len(l.len(), j) - 1] as nat
}

pub open spec fn uppers(l: Seq<u32>) -> spec_fn(int) -> nat {
    |j: int| upper(l, j)
}

/// Partition `j` starts one past the previous maximum.
pub open spec fn part_start(l: Seq<u32>, j: int) -> nat {
    if j == 0 {
        0
    } else {
        upper(l, j - 1) + 1
    }
}

pub open spec fn part_universe(l: Seq<u32>, j: int) -> nat {
    (upper(l, j) + 1 - part_start(l, j)) as nat
}

pub open spec fn locals(l: Seq<u32>, j: int) -> spec_fn(int) -> nat {
    seg_locals(l, 128 * j, part_start(l, j))
}

pub open spec fn part_low_width(l: Seq<u32>, j: int) -> nat {
    low_width_of(part_universe(l, j), part_len(l.len(), j) as nat)
}

/// All-ones when the partition fills its universe; otherwise the smaller
/// of bitmap and Elias-Fano, bitmap on a tie.
pub open spec fn part_type(l: Seq<u32>, j: int) -> nat {
    let len = part_len(l.len(), j);
    let uni = part_universe(l, j);
    let lw = part_low_width(l, j);
    if uni == len {
        TYPE_ALL_ONES as nat
    } else if ceil8(uni as int) <= ceil8(len * lw) + ceil8(len + uni / pow2(lw)) {
        TYPE_BITMAP as nat
    } else {
        TYPE_ELIAS_FANO as nat
    }
}

pub open spec fn part_payload(l: Seq<u32>, j: int) -> Seq<u8> {
    let len = part_len(l.len(), j);
    let uni = part_universe(l, j);
    let lw = part_low_width(l, j);
    if part_type(l, j) == TYPE_ALL_ONES as nat {
        Seq::empty()
    } else if part_type(l, j) == TYPE_BITMAP as nat {
        bitmap_of(locals(l, j), len, uni)
    } else {
        ef_lows(locals(l, j), len, lw) + ef_highs(locals(l, j), len, uni, lw)
    }
}

/// The payloads of partitions `0..j`, back to back.
pub open spec fn payload_upto(l: Seq<u32>, j: int) -> Seq<u8>
    decreases j,
{
    if j <= 0 {
        Seq::empty()
    } else {
        payload_upto(l, j - 1) + part_payload(l, j - 1)
    }
}

pub open spec fn payload_of(l: Seq<u32>) -> Seq<u8> {
    payload_upto(l, part_count(l.len()) as int)
}

pub open spec fn upper_low_width(universe: u32, l: Seq<u32>) -> nat {
    low_width_of(universe as nat, part_count(l.len()))
}

pub open spec fn offset_width(l: Seq<u32>) -> nat {
    bits_req(payload_of(l).len())
}

pub open spec fn types_of(l: Seq<u32>) -> Seq<u8> {
    pack((2 * part_count(l.len())) as int, fields_bits(|j: int| part_type(l, j), 2))
}

pub open spec fn offsets_of(l: Seq<u32>) -> Seq<u8> {
    pack(
        (part_count(l.len()) * offset_width(l)) as int,
        fields_bits(|j: int| payload_upto(l, j).len(), offset_width(l)),
    )
}

/// The encoding of a strictly increasing list below `universe`; nothing
/// for the empty list.
#[verifier::opaque]
pub open spec fn pef_bytes(universe: u32, l: Seq<u32>) -> Seq<u8> {
    if l.len() == 0 {
        Seq::empty()
    } else {
        let k = part_count(l.len()) as int;
        let ul = upper_low_width(universe, l);
        seq![ul as u8, offset_width(l) as u8] + ef_lows(uppers(l), k, ul) + ef_highs(
            uppers(l),
            k,
            universe as nat,
            ul,
        ) + types_of(l) + offsets_of(l) + payload_of(l)
    }
}

/// `v` needs `b` bits exactly when it lies in `[2^(b-1), 2^b)`.
pub proof fn lemma_bits_req(v: nat)
    ensures
        v < pow2(bits_req(v)),
        v > 0 ==> pow2((bits_req(v) - 1) as nat) <= v,
    decreases v,
{
    lemma2_to64();
    if v > 0 {
        lemma_bits_req(v / 2);
        let b = bits_req(v);
        vstd::arithmetic::power2::lemma_pow2_unfold(b);
        if v / 2 > 0 {
            vstd::arithmetic::power2::lemma_pow2_unfold((b - 1) as nat);
        }
    }
}

/// A number in `[2^(b-1), 2^b)` (or zero, with `b = 0`) needs `b` bits.
pub proof fn lemma_bits_req_is(v: nat, b: nat)
    requires
        v < pow2(b),
        v > 0 ==> b > 0 && pow2((b - 1) as nat) <= v,
        v == 0 ==> b == 0,
    ensures
        bits_req(v) == b,
    decreases v,
{
    lemma2_to64();
    if v > 0 {
        vstd::arithmetic::power2::lemma_pow2_unfold(b);
        if v / 2 > 0 {
            if b < 2 {
                assert(pow2((b - 1) as nat) == 1);
            }
            vstd::arithmetic::power2::lemma_pow2_unfold((b - 1) as nat);
        } else {
            if b > 1 {
                lemma_pow2_strictly_increases(1, (b - 1) as nat);
            }
        }
        lemma_bits_req_is(v / 2, (b - 1) as nat);
    }
}

/// Bits needed by a number below `2^m` are at most `m`.
pub proof fn lemma_bits_req_le(v: nat, m: nat)
    requires
        v < pow2(m),
    ensures
        bits_req(v) <= m,
{
    lemma_bits_req(v);
    if bits_req(v) > m {
        lemma_pow2_strictly_increases(m, (bits_req(v) - 1) as nat);
        if bits_req(v) - 1 == m {
        }
    }
}

/// For `count <= universe <= 2^32`: the low width is at most 32 and the
/// high parts stay below `2 count`.
pub proof fn lemma_low_width(universe: nat, count: nat)
    requires
        1 <= count <= universe <= 0x1_0000_0000,
    ensures
        low_width_of(universe, count) <= 32,
        universe / pow2(low_width_of(universe, count)) < 2 * count,
        pow2(low_width_of(universe, count)) <= universe / count,
{
    lemma2_to64();
    let q = universe / count;
    let ui = universe as int;
    let ci = count as int;
    let r = ui % ci;
    lemma_fundamental_div_mod(ui, ci);
    vstd::arithmetic::div_mod::lemma_mod_pos_bound(ui, ci);
    assert(q as int == ui / ci);
    assert(ui == ci * (q as int) + r);
    assert(q >= 1) by (nonlinear_arith)
        requires
            ui == ci * (q as int) + r,
            r < ci,
            ci <= ui,
            q >= 0,
    ;
    assert(q <= universe) by (nonlinear_arith)
        requires
            ui == ci * (q as int) + r,
            r >= 0,
            ci >= 1,
            q >= 0,
            ui == universe,
    ;
    lemma_bits_req(q);
    let b = bits_req(q);
    let lw = (b - 1) as nat;
    assert(pow2(33) == 0x2_0000_0000) by {
        vstd::arithmetic::power2::lemma2_to64_rest();
    }
    if b > 33 {
        lemma_pow2_strictly_increases(33, lw);
    }
    vstd::arithmetic::power2::lemma_pow2_unfold(b);
    lemma_pow2_pos(lw);
    let p = pow2(lw) as int;
    assert(ui < 2 * ci * p) by (nonlinear_arith)
        requires
            ui == ci * (q as int) + r,
            r < ci,
            (q as int) + 1 <= 2 * p,
            ci >= 1,
    ;
    lemma_fundamental_div_mod(ui, p);
    vstd::arithmetic::div_mod::lemma_mod_pos_bound(ui, p);
    assert(ui / p < 2 * ci) by (nonlinear_arith)
        requires
            ui < 2 * ci * p,
            p > 0,
            ui == p * (ui / p) + ui % p,
            ui % p >= 0,
    ;
}

/// Field `j` of a fields array starts at bit `j w`.
pub proof fn lemma_fields_bit(vals: spec_fn(int) -> nat, w: nat, j: int, k: int)
    requires
        0 <= j,
        0 <= k < w,
    ensures
        fields_bits(vals, w)(j * w + k) == bitn(vals(j), k as nat),
{
    lemma_fundamental_div_mod_converse(j * w + k, w as int, j, k);
}

/// Packing depends only on the bits below `n`.
pub proof fn lemma_pack_congr(n: int, f: spec_fn(int) -> bool, g: spec_fn(int) -> bool)
    requires
        0 <= n,
        forall|i: int| 0 <= i < n ==> #[trigger] f(i) == g(i),
    ensures
        pack(n, f) == pack(n, g),
{
    assert forall|i: int| 0 <= i < 8 * ceil8(n) implies super::bits::bit_at(pack(n, f), i) == (i
        < n && g(i)) by {
        lemma_pack_bit(n, f, i);
    }
    lemma_pack_eq(pack(n, f), n, g);
}

/// Elias-Fano arrays depend only on the first `m` values.
pub proof fn lemma_ef_congr(
    v1: spec_fn(int) -> nat,
    v2: spec_fn(int) -> nat,
    m: int,
    universe: nat,
    lw: nat,
)
    requires
        0 <= m,
        forall|i: int| 0 <= i < m ==> #[trigger] v1(i) == v2(i),
    ensures
        ef_lows(v1, m, lw) == ef_lows(v2, m, lw),
        ef_highs(v1, m, universe, lw) == ef_highs(v2, m, universe, lw),
        bitmap_of(v1, m, universe) == bitmap_of(v2, m, universe),
{
    assert(m * lw >= 0) by (nonlinear_arith)
        requires
            m >= 0,
    ;
    assert forall|i: int| 0 <= i < m * lw implies #[trigger] fields_bits(v1, lw)(i) == fields_bits(
        v2,
        lw,
    )(i) by {
        if lw > 0 {
            lemma_fundamental_div_mod(i, lw as int);
            assert(i / (lw as int) < m) by (nonlinear_arith)
                requires
                    0 <= i < m * lw,
                    lw > 0,
                    i == lw * (i / (lw as int)) + i % (lw as int),
                    0 <= i % (lw as int),
            ;
            assert(0 <= i / (lw as int)) by (nonlinear_arith)
                requires
                    0 <= i,
                    lw > 0,
            ;
        }
    }
    lemma_pack_congr(m * lw, fields_bits(v1, lw), fields_bits(v2, lw));
    let p1 = ef_high_pos(v1, lw);
    let p2 = ef_high_pos(v2, lw);
    assert forall|q: int| #[trigger] is_pos(p1, m, q) == is_pos(p2, m, q) by {
        if is_pos(p1, m, q) {
            let i = choose|i: int| 0 <= i < m && #[trigger] p1(i) == q;
            assert(p2(i) == q);
        }
        if is_pos(p2, m, q) {
            let i = choose|i: int| 0 <= i < m && #[trigger] p2(i) == q;
            assert(p1(i) == q);
        }
    }
    lemma_pow2_pos(lw);
    assert(m + universe / pow2(lw) >= 0);
    lemma_pack_congr(
        m + universe / pow2(lw),
        |q: int| is_pos(ef_high_pos(v1, lw), m, q),
        |q: int| is_pos(ef_high_pos(v2, lw), m, q),
    );
    let b1 = |i: int| v1(i) as int;
    let b2 = |i: int| v2(i) as int;
    assert forall|q: int| #[trigger] is_pos(b1, m, q) == is_pos(b2, m, q) by {
        if is_pos(b1, m, q) {
            let i = choose|i: int| 0 <= i < m && #[trigger] b1(i) == q;
            assert(b2(i) == q);
        }
        if is_pos(b2, m, q) {
            let i = choose|i: int| 0 <= i < m && #[trigger] b2(i) == q;
            assert(b1(i) == q);
        }
    }
    lemma_pack_congr(
        universe as int,
        |q: int| is_pos(|i: int| v1(i) as int, m, q),
        |q: int| is_pos(|i: int| v2(i) as int, m, q),
    );
}


/// The lists the format holds: strictly increasing, below the universe,
/// and short enough that bit positions in the encoding fit a `usize`.
pub open spec fn pef_valid(universe: u32, l: Seq<u32>) -> bool {
    &&& strictly_increasing(l)
    &&& below(l, universe)
    &&& l.len() * 64 <= usize::MAX
    &&& l.len() <= u32::MAX
}

/// In a strictly increasing list, values `j - i` apart in position are at
/// least `j - i` apart in value.
pub proof fn lemma_list_gap(s: Seq<u32>, i: int, j: int)
    requires
        strictly_increasing(s),
        0 <= i <= j < s.len(),
    ensures
        s[j] - s[i] >= j - i,
    decreases j - i,
{
    if i < j {
        lemma_list_gap(s, i, j - 1);
        assert(s[j - 1] < s[j]);
    }
}

/// Where partition `j` lies and what bounds its values.
pub proof fn lemma_partition(universe: u32, l: Seq<u32>, j: int)
    requires
        pef_valid(universe, l),
        0 <= j < part_count(l.len()),
    ensures
        1 <= part_len(l.len(), j) <= 128,
        128 * j + part_len(l.len(), j) <= l.len(),
        j + 1 < part_count(l.len()) ==> part_len(l.len(), j) == 128,
        j + 1 == part_count(l.len()) ==> 128 * j + part_len(l.len(), j) == l.len(),
        part_start(l, j) <= l[128 * j],
        upper(l, j) < universe,
        part_len(l.len(), j) <= part_universe(l, j) <= 0x1_0000_0000,
        part_universe(l, j) == upper(l, j) + 1 - part_start(l, j),
        forall|i: int|
            0 <= i < part_len(l.len(), j) ==> part_start(l, j) <= #[trigger] l[128 * j + i] <= upper(
                l,
                j,
            ),
        j > 0 ==> upper(l, j - 1) < l[128 * j],
        j + 1 < part_count(l.len()) ==> upper(l, j) < upper(l, j + 1),
        part_count(l.len()) <= l.len(),
        part_count(l.len()) <= universe,
        l.len() > 0,
{
    let n = l.len();
    let len = part_len(n, j);
    let last = 128 * j + len - 1;
    assert(l[last] < universe);
    if j > 0 {
        assert(part_len(n, j - 1) == 128);
        assert(l[128 * j - 1] < l[128 * j]);
    }
    assert forall|i: int| 0 <= i < len implies part_start(l, j) <= #[trigger] l[128 * j + i] <= upper(
        l,
        j,
    ) by {
        if i > 0 {
            assert(l[128 * j] < l[128 * j + i]);
        }
        if 128 * j + i < last {
            assert(l[128 * j + i] < l[last]);
        }
        if j > 0 {
            assert(l[128 * j - 1] < l[128 * j]);
        }
    }
    lemma_list_gap(l, 128 * j, last);
    if j + 1 < part_count(n) {
        let next_last = 128 * (j + 1) + part_len(n, j + 1) - 1;
        assert(l[last] < l[next_last]);
    }
    lemma_list_gap(l, 0, n - 1);
    assert(l[n - 1] < universe);
}

/// The partition maxima are strictly increasing.
pub proof fn lemma_uppers_increasing(universe: u32, l: Seq<u32>, i: int, j: int)
    requires
        pef_valid(universe, l),
        0 <= i < j < part_count(l.len()),
    ensures
        upper(l, i) < upper(l, j),
    decreases j - i,
{
    lemma_partition(universe, l, j - 1);
    if i < j - 1 {
        lemma_uppers_increasing(universe, l, i, j - 1);
    }
}

} // verus!
