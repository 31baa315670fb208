//! Where each part of an encoding lies, and what its bits say about the
//! list: the facts the readers are proved from.

use vstd::arithmetic::div_mod::lemma_fundamental_div_mod;
use vstd::arithmetic::power2::{lemma2_to64, lemma_pow2_pos, lemma_pow2_strictly_increases, pow2};
use vstd::prelude::*;

use super::bits::{
    bit_at, bitn, ceil8, fields_bits, lemma_bitn_ext, lemma_bitn_mod, lemma_pack_bit,
    lemma_region_bit, lemma_u64_below, pack,
};
use super::format::{
    ef_high_pos, ef_highs, ef_lows, lemma_bits_req, lemma_bits_req_le, lemma_fields_bit,
    lemma_list_gap, lemma_low_width, lemma_partition, lemma_uppers_increasing, locals, offset_width,
    offsets_of, part_count, part_len, part_low_width, part_payload, part_start, part_type,
    part_universe, payload_of, payload_upto, pef_bytes, pef_valid, types_of, upper, upper_low_width,
    uppers,
};
use super::rank::{increasing, is_pos, lemma_sparse_rank, lemma_sparse_select, sparse};

verus! {

/// Byte where the upper-level high bits start.
pub open spec fn highs_at(n: nat, ul: nat) -> int {
    2 + ceil8((part_count(n) * ul) as int)
}

/// Length in bits of the upper-level high array.
pub open spec fn high_bits(universe: nat, n: nat, ul: nat) -> int {
    (part_count(n) + universe / pow2(ul)) as int
}

pub open spec fn types_at(universe: nat, n: nat, ul: nat) -> int {
    highs_at(n, ul) + ceil8(high_bits(universe, n, ul))
}

pub open spec fn offsets_at(universe: nat, n: nat, ul: nat) -> int {
    types_at(universe, n, ul) + ceil8((2 * part_count(n)) as int)
}

pub open spec fn payload_at(universe: nat, n: nat, ul: nat, w: nat) -> int {
    offsets_at(universe, n, ul) + ceil8((part_count(n) * w) as int)
}

/// Byte where partition `j`'s payload starts.
pub open spec fn part_at(universe: u32, l: Seq<u32>, j: int) -> int {
    payload_at(universe as nat, l.len(), upper_low_width(universe, l), offset_width(l))
        + payload_upto(l, j).len()
}

/// The `w` bits at bit `off` of `buf` hold the low `w` bits of `v`.
pub open spec fn holds_field(buf: Seq<u8>, off: int, w: nat, v: nat) -> bool {
    forall|d: nat| d < w ==> #[trigger] bitn(v, d) == bit_at(buf, off + d)
}

/// A word read from a field that holds `v` is `v` reduced to the field.
pub proof fn lemma_field_value(buf: Seq<u8>, off: int, w: nat, v: nat, r: u64)
    requires
        holds_field(buf, off, w, v),
        w <= 64,
        forall|k: nat| #[trigger] bitn(r as nat, k) == (k < w && bit_at(buf, off + k)),
    ensures
        r as nat == v % pow2(w),
{
    lemma_u64_below(r);
    lemma_pow2_pos(w);
    if w < 64 {
        lemma_pow2_strictly_increases(w, 64);
    }
    assert forall|k: nat| k < 64 implies #[trigger] bitn(r as nat, k) == bitn(v % pow2(w), k) by {
        lemma_bitn_mod(v, w, k);
        if k < w {
            assert(bitn(v, k) == bit_at(buf, off + k));
        }
    }
    lemma_bitn_ext(r as nat, v % pow2(w), 64);
}

/// A packed fields array inside `buf` holds its fields.
pub proof fn lemma_pack_field(
    buf: Seq<u8>,
    at: int,
    vals: spec_fn(int) -> nat,
    m: int,
    w: nat,
    j: int,
)
    requires
        0 <= at,
        0 <= j < m,
        at + pack(m * w, fields_bits(vals, w)).len() <= buf.len(),
        buf.subrange(at, at + pack(m * w, fields_bits(vals, w)).len()) == pack(
            m * w,
            fields_bits(vals, w),
        ),
    ensures
        holds_field(buf, 8 * at + j * w, w, vals(j)),
        8 * at + j * w + w <= 8 * buf.len(),
{
    let x = pack(m * w, fields_bits(vals, w));
    assert(j * w + w <= m * w) by (nonlinear_arith)
        requires
            0 <= j < m,
    ;
    assert(0 <= j * w) by (nonlinear_arith)
        requires
            0 <= j,
    ;
    assert forall|d: nat| d < w implies #[trigger] bitn(vals(j), d) == bit_at(buf, 8 * at + j * w + d)
        by {
        let i = j * w + d;
        lemma_region_bit(buf, at, x, i);
        lemma_pack_bit(m * w, fields_bits(vals, w), i);
        lemma_fields_bit(vals, w, j, d as int);
        assert(8 * at + j * w + d == 8 * at + i);
    }
}

/// A packed position bitmap inside `buf` makes the range sparse.
pub proof fn lemma_pack_sparse(buf: Seq<u8>, at: int, len: int, pos: spec_fn(int) -> int, m: int)
    requires
        0 <= at,
        0 <= len,
        0 <= m,
        increasing(pos, m),
        forall|i: int| 0 <= i < m ==> 0 <= #[trigger] pos(i) < len,
        at + pack(len, |q: int| is_pos(pos, m, q)).len() <= buf.len(),
        buf.subrange(at, at + pack(len, |q: int| is_pos(pos, m, q)).len()) == pack(
            len,
            |q: int| is_pos(pos, m, q),
        ),
    ensures
        sparse(buf, 8 * at, len, pos, m),
        8 * at + len <= 8 * buf.len(),
{
    let x = pack(len, |q: int| is_pos(pos, m, q));
    assert forall|q: int| 0 <= q < len implies #[trigger] bit_at(buf, 8 * at + q) == is_pos(
        pos,
        m,
        q,
    ) by {
        lemma_region_bit(buf, at, x, q);
        lemma_pack_bit(len, |q: int| is_pos(pos, m, q), q);
    }
}

/// The high positions of an Elias-Fano sequence of strictly increasing
/// values below `universe` are strictly increasing and inside the array.
pub proof fn lemma_ef_positions(vals: spec_fn(int) -> nat, m: int, universe: nat, lw: nat)
    requires
        0 <= m,
        forall|i: int, j: int| 0 <= i < j < m ==> #[trigger] vals(i) < #[trigger] vals(j),
        forall|i: int| 0 <= i < m ==> #[trigger] vals(i) < universe,
    ensures
        increasing(ef_high_pos(vals, lw), m),
        forall|i: int|
            0 <= i < m ==> 0 <= #[trigger] ef_high_pos(vals, lw)(i) < m + universe / pow2(lw),
{
    lemma_pow2_pos(lw);
    let pos = ef_high_pos(vals, lw);
    assert forall|i: int, j: int| 0 <= i < j < m implies #[trigger] pos(i) < #[trigger] pos(j) by {
        vstd::arithmetic::div_mod::lemma_div_is_ordered(
            vals(i) as int,
            vals(j) as int,
            pow2(lw) as int,
        );
    }
    assert forall|i: int| 0 <= i < m implies 0 <= #[trigger] pos(i) < m + universe / pow2(lw) by {
        vstd::arithmetic::div_mod::lemma_div_is_ordered(
            vals(i) as int,
            universe as int,
            pow2(lw) as int,
        );
    }
}

/// Each partition payload is at most 560 bytes.
pub proof fn lemma_part_payload_len(universe: u32, l: Seq<u32>, j: int)
    requires
        pef_valid(universe, l),
        0 <= j < part_count(l.len()),
    ensures
        part_payload(l, j).len() <= 560,
{
    lemma_partition(universe, l, j);
    let len = part_len(l.len(), j);
    let uni = part_universe(l, j);
    lemma_low_width(uni, len as nat);
    let lw = part_low_width(l, j);
    assert(len * lw <= 128 * 32) by (nonlinear_arith)
        requires
            len <= 128,
            lw <= 32,
            len >= 0,
    ;
    assert(len * lw >= 0) by (nonlinear_arith)
        requires
            len >= 0,
    ;
    lemma_pow2_pos(lw);
    let a = ceil8(len * lw);
    let b = ceil8(len + uni / pow2(lw));
    assert(a <= 512);
    assert(b <= 48);
    if part_type(l, j) == 1 {
        assert(ceil8(uni as int) <= a + b);
        assert(part_payload(l, j).len() == ceil8(uni as int));
    } else if part_type(l, j) == 2 {
        assert(ef_lows(locals(l, j), len, lw).len() == a);
        assert(ef_highs(locals(l, j), len, uni, lw).len() == b);
    }
}

/// The payloads of the first `j` partitions take at most `560 j` bytes.
pub proof fn lemma_payload_upto_len(universe: u32, l: Seq<u32>, j: int)
    requires
        pef_valid(universe, l),
        0 <= j <= part_count(l.len()),
    ensures
        payload_upto(l, j).len() <= 560 * j,
    decreases j,
{
    if j > 0 {
        lemma_payload_upto_len(universe, l, j - 1);
        lemma_part_payload_len(universe, l, j - 1);
    }
}

/// Partition `j`'s payload sits at its offset inside the payloads of the
/// first `t > j` partitions.
pub proof fn lemma_payload_split(l: Seq<u32>, j: int, t: int)
    requires
        0 <= j < t,
    ensures
        payload_upto(l, j).len() + part_payload(l, j).len() <= payload_upto(l, t).len(),
        payload_upto(l, t).subrange(
            payload_upto(l, j).len() as int,
            (payload_upto(l, j).len() + part_payload(l, j).len()) as int,
        ) == part_payload(l, j),
    decreases t - j,
{
    if t == j + 1 {
        assert(payload_upto(l, t) == payload_upto(l, j) + part_payload(l, j));
    } else {
        lemma_payload_split(l, j, t - 1);
        assert(payload_upto(l, t) == payload_upto(l, t - 1) + part_payload(l, t - 1));
        assert(payload_upto(l, t).subrange(0, payload_upto(l, t - 1).len() as int) == payload_upto(
            l,
            t - 1,
        ));
    }
    assert(payload_upto(l, t).subrange(
        payload_upto(l, j).len() as int,
        (payload_upto(l, j).len() + part_payload(l, j).len()) as int,
    ) =~= part_payload(l, j));
}

/// The regions of an encoding, their sizes, and the two header bytes.
pub proof fn lemma_layout(universe: u32, l: Seq<u32>)
    requires
        pef_valid(universe, l),
        l.len() > 0,
    ensures
        ({
            let buf = pef_bytes(universe, l);
            let n = l.len();
            let k = part_count(n) as int;
            let ul = upper_low_width(universe, l);
            let w = offset_width(l);
            let u = universe as nat;
            &&& ul <= 32
            &&& w <= 64
            &&& k <= n
            &&& buf[0] == ul as u8
            &&& buf[1] == w as u8
            &&& buf.len() == payload_at(u, n, ul, w) + payload_of(l).len()
            &&& 8 * buf.len() <= usize::MAX
            &&& payload_of(l).len() < pow2(w)
            &&& buf.subrange(2, highs_at(n, ul)) == ef_lows(uppers(l), k, ul)
            &&& buf.subrange(highs_at(n, ul), types_at(u, n, ul)) == ef_highs(uppers(l), k, u, ul)
            &&& buf.subrange(types_at(u, n, ul), offsets_at(u, n, ul)) == types_of(l)
            &&& buf.subrange(offsets_at(u, n, ul), payload_at(u, n, ul, w)) == offsets_of(l)
            &&& buf.subrange(payload_at(u, n, ul, w), buf.len() as int) == payload_of(l)
        }),
{
    let buf = pef_bytes(universe, l);
    let n = l.len();
    let k = part_count(n) as int;
    let ul = upper_low_width(universe, l);
    let w = offset_width(l);
    let u = universe as nat;
    lemma_partition(universe, l, 0);
    lemma_low_width(u, k as nat);
    let lows = ef_lows(uppers(l), k, ul);
    let highs = ef_highs(uppers(l), k, u, ul);
    let types = types_of(l);
    let offs = offsets_of(l);
    let pay = payload_of(l);
    reveal(pef_bytes);
    lemma_payload_upto_len(universe, l, k);
    lemma_bits_req(pay.len());
    assert(pay.len() <= 560 * k);
    assert(k * ul <= 32 * k) by (nonlinear_arith)
        requires
            ul <= 32,
            k >= 0,
    ;
    assert(k * ul >= 0) by (nonlinear_arith)
        requires
            k >= 0,
    ;
    lemma2_to64();
    assert(pow2(64) == 0x1_0000_0000_0000_0000) by {
        vstd::arithmetic::power2::lemma2_to64_rest();
    }
    lemma_bits_req_le(pay.len(), 64);
    assert(k * w <= 64 * k) by (nonlinear_arith)
        requires
            w <= 64,
            k >= 0,
    ;
    assert(k * w >= 0) by (nonlinear_arith)
        requires
            k >= 0,
    ;
    assert(128 * (k - 1) < n) by {
        lemma_fundamental_div_mod((n + 127) as int, 128);
    }
    let total = 2 + ceil8(k * ul) + ceil8(high_bits(u, n, ul)) + ceil8(2 * k) + ceil8(k * w)
        + pay.len();
    assert(buf =~= seq![ul as u8, w as u8] + lows + highs + types + offs + pay);
    assert(total <= 600 * k + 8);
    assert(8 * total <= usize::MAX) by (nonlinear_arith)
        requires
            total <= 600 * k + 8,
            128 * (k - 1) < n,
            n * 64 <= usize::MAX,
            usize::MAX >= 0xffff_ffff,
            k >= 1,
    ;
    assert(buf.subrange(2, highs_at(n, ul)) =~= lows);
    assert(buf.subrange(highs_at(n, ul), types_at(u, n, ul)) =~= highs);
    assert(buf.subrange(types_at(u, n, ul), offsets_at(u, n, ul)) =~= types);
    assert(buf.subrange(offsets_at(u, n, ul), payload_at(u, n, ul, w)) =~= offs);
    assert(buf.subrange(payload_at(u, n, ul, w), buf.len() as int) =~= pay);
}

/// Splitting a region that holds `x + y`.
proof fn lemma_sub_split(buf: Seq<u8>, a: int, x: Seq<u8>, y: Seq<u8>)
    requires
        0 <= a,
        a + x.len() + y.len() <= buf.len(),
        buf.subrange(a, a + x.len() + y.len()) == x + y,
    ensures
        buf.subrange(a, a + x.len()) == x,
        buf.subrange(a + x.len(), a + x.len() + y.len()) == y,
{
    assert(buf.subrange(a, a + x.len()) =~= (x + y).subrange(0, x.len() as int));
    assert((x + y).subrange(0, x.len() as int) =~= x);
    assert(buf.subrange(a + x.len(), a + x.len() + y.len()) =~= (x + y).subrange(
        x.len() as int,
        (x.len() + y.len()) as int,
    ));
    assert((x + y).subrange(x.len() as int, (x.len() + y.len()) as int) =~= y);
}

/// A region of `buf` inside a region.
proof fn lemma_sub_inner(buf: Seq<u8>, a: int, b: int, c: int, d: int)
    requires
        0 <= a <= c <= d <= b <= buf.len(),
    ensures
        buf.subrange(a, b).subrange(c - a, d - a) == buf.subrange(c, d),
{
    assert(buf.subrange(a, b).subrange(c - a, d - a) =~= buf.subrange(c, d));
}

/// The upper level's low field of partition `j`.
pub proof fn lemma_upper_field(universe: u32, l: Seq<u32>, j: int)
    requires
        pef_valid(universe, l),
        0 <= j < part_count(l.len()),
    ensures
        holds_field(
            pef_bytes(universe, l),
            16 + j * upper_low_width(universe, l),
            upper_low_width(universe, l),
            upper(l, j),
        ),
        16 + j * upper_low_width(universe, l) + upper_low_width(universe, l) <= 8 * highs_at(
            l.len(),
            upper_low_width(universe, l),
        ),
{
    lemma_partition(universe, l, j);
    lemma_layout(universe, l);
    let k = part_count(l.len()) as int;
    let ul = upper_low_width(universe, l);
    lemma_pack_field(pef_bytes(universe, l), 2, uppers(l), k, ul, j);
    assert(j * ul + ul <= k * ul) by (nonlinear_arith)
        requires
            0 <= j < k,
    ;
    assert(k * ul >= 0) by (nonlinear_arith)
        requires
            k >= 0,
    ;
}

/// The upper level's high array: one bit per partition maximum.
pub proof fn lemma_upper_sparse(universe: u32, l: Seq<u32>)
    requires
        pef_valid(universe, l),
        l.len() > 0,
    ensures
        sparse(
            pef_bytes(universe, l),
            8 * highs_at(l.len(), upper_low_width(universe, l)),
            high_bits(universe as nat, l.len(), upper_low_width(universe, l)),
            ef_high_pos(uppers(l), upper_low_width(universe, l)),
            part_count(l.len()) as int,
        ),
        8 * highs_at(l.len(), upper_low_width(universe, l)) + high_bits(
            universe as nat,
            l.len(),
            upper_low_width(universe, l),
        ) <= 8 * types_at(universe as nat, l.len(), upper_low_width(universe, l)),
{
    let k = part_count(l.len()) as int;
    let ul = upper_low_width(universe, l);
    lemma_layout(universe, l);
    assert forall|i: int, j: int| 0 <= i < j < k implies #[trigger] uppers(l)(i) < #[trigger] uppers(
        l,
    )(j) by {
        lemma_uppers_increasing(universe, l, i, j);
    }
    assert forall|i: int| 0 <= i < k implies #[trigger] uppers(l)(i) < universe by {
        lemma_partition(universe, l, i);
    }
    lemma_ef_positions(uppers(l), k, universe as nat, ul);
    lemma_pow2_pos(ul);
    lemma_pack_sparse(
        pef_bytes(universe, l),
        highs_at(l.len(), ul),
        high_bits(universe as nat, l.len(), ul),
        ef_high_pos(uppers(l), ul),
        k,
    );
}

/// The two type bits of partition `j`.
pub proof fn lemma_type_field(universe: u32, l: Seq<u32>, j: int)
    requires
        pef_valid(universe, l),
        0 <= j < part_count(l.len()),
    ensures
        holds_field(
            pef_bytes(universe, l),
            8 * types_at(universe as nat, l.len(), upper_low_width(universe, l)) + 2 * j,
            2,
            part_type(l, j),
        ),
        8 * types_at(universe as nat, l.len(), upper_low_width(universe, l)) + 2 * j + 2 <= 8
            * offsets_at(universe as nat, l.len(), upper_low_width(universe, l)),
        part_type(l, j) <= 2,
{
    lemma_layout(universe, l);
    let k = part_count(l.len()) as int;
    let ul = upper_low_width(universe, l);
    lemma_pack_field(
        pef_bytes(universe, l),
        types_at(universe as nat, l.len(), ul),
        |i: int| part_type(l, i),
        k,
        2,
        j,
    );
}

/// The payload offset of partition `j`, which fits its field.
pub proof fn lemma_offset_field(universe: u32, l: Seq<u32>, j: int)
    requires
        pef_valid(universe, l),
        0 <= j < part_count(l.len()),
    ensures
        holds_field(
            pef_bytes(universe, l),
            8 * offsets_at(universe as nat, l.len(), upper_low_width(universe, l)) + j
                * offset_width(l),
            offset_width(l),
            payload_upto(l, j).len(),
        ),
        8 * offsets_at(universe as nat, l.len(), upper_low_width(universe, l)) + j * offset_width(l)
            + offset_width(l) <= 8 * payload_at(
            universe as nat,
            l.len(),
            upper_low_width(universe, l),
            offset_width(l),
        ),
        payload_upto(l, j).len() < pow2(offset_width(l)),
{
    lemma_layout(universe, l);
    let k = part_count(l.len()) as int;
    let ul = upper_low_width(universe, l);
    let w = offset_width(l);
    lemma_pack_field(
        pef_bytes(universe, l),
        offsets_at(universe as nat, l.len(), ul),
        |i: int| payload_upto(l, i).len(),
        k,
        w,
        j,
    );
    lemma_payload_split(l, j, k);
    assert(j * w + w <= k * w) by (nonlinear_arith)
        requires
            0 <= j < k,
    ;
    assert(k * w >= 0) by (nonlinear_arith)
        requires
            k >= 0,
    ;
}

/// Partition `j`'s payload, in place.
pub proof fn lemma_part_region(universe: u32, l: Seq<u32>, j: int)
    requires
        pef_valid(universe, l),
        0 <= j < part_count(l.len()),
    ensures
        0 <= part_at(universe, l, j),
        part_at(universe, l, j) + part_payload(l, j).len() <= pef_bytes(universe, l).len(),
        pef_bytes(universe, l).subrange(
            part_at(universe, l, j),
            part_at(universe, l, j) + part_payload(l, j).len(),
        ) == part_payload(l, j),
{
    let buf = pef_bytes(universe, l);
    let k = part_count(l.len()) as int;
    lemma_layout(universe, l);
    lemma_payload_split(l, j, k);
    let pa = payload_at(universe as nat, l.len(), upper_low_width(universe, l), offset_width(l));
    let a = payload_upto(l, j).len() as int;
    let b = a + part_payload(l, j).len();
    assert(0 <= pa);
    lemma_sub_inner(buf, pa, buf.len() as int, pa + a, pa + b);
}

/// An all-ones partition holds `start, start + 1, ...`.
pub proof fn lemma_part_all_ones(universe: u32, l: Seq<u32>, j: int, t: int)
    requires
        pef_valid(universe, l),
        0 <= j < part_count(l.len()),
        part_type(l, j) == 0,
        0 <= t < part_len(l.len(), j),
    ensures
        locals(l, j)(t) == t,
        part_universe(l, j) == part_len(l.len(), j),
{
    lemma_partition(universe, l, j);
    let len = part_len(l.len(), j);
    let first = 128 * j;
    let last = 128 * j + len - 1;
    lemma_list_gap(l, first, first + t);
    lemma_list_gap(l, first + t, last);
    assert(part_start(l, j) <= l[first]);
}

/// The values of partition `j`, relative to its start: strictly
/// increasing and below its universe.
pub proof fn lemma_locals(universe: u32, l: Seq<u32>, j: int)
    requires
        pef_valid(universe, l),
        0 <= j < part_count(l.len()),
    ensures
        forall|a: int, b: int|
            0 <= a < b < part_len(l.len(), j) ==> #[trigger] locals(l, j)(a) < #[trigger] locals(
                l,
                j,
            )(b),
        forall|a: int|
            0 <= a < part_len(l.len(), j) ==> #[trigger] locals(l, j)(a) < part_universe(l, j),
        forall|a: int|
            0 <= a < part_len(l.len(), j) ==> #[trigger] locals(l, j)(a) + part_start(l, j) == l[128
                * j + a],
{
    lemma_partition(universe, l, j);
    let len = part_len(l.len(), j);
    assert forall|a: int, b: int| 0 <= a < b < len implies #[trigger] locals(l, j)(a) < #[trigger] locals(
        l,
        j,
    )(b) by {
        assert(l[128 * j + a] < l[128 * j + b]);
        assert(part_start(l, j) <= l[128 * j + a]);
    }
    assert forall|a: int| 0 <= a < len implies #[trigger] locals(l, j)(a) + part_start(l, j) == l[128
        * j + a] by {
        assert(part_start(l, j) <= l[128 * j + a]);
    }
}

/// A bitmap partition's payload sets the bits of its values.
pub proof fn lemma_part_bitmap(universe: u32, l: Seq<u32>, j: int)
    requires
        pef_valid(universe, l),
        0 <= j < part_count(l.len()),
        part_type(l, j) == 1,
    ensures
        sparse(
            pef_bytes(universe, l),
            8 * part_at(universe, l, j),
            part_universe(l, j) as int,
            |i: int| locals(l, j)(i) as int,
            part_len(l.len(), j),
        ),
        8 * part_at(universe, l, j) + part_universe(l, j) <= 8 * pef_bytes(universe, l).len(),
{
    lemma_part_region(universe, l, j);
    lemma_locals(universe, l, j);
    lemma_partition(universe, l, j);
    let pos = |i: int| locals(l, j)(i) as int;
    let len = part_len(l.len(), j);
    assert forall|a: int, b: int| 0 <= a < b < len implies #[trigger] pos(a) < #[trigger] pos(b) by {
        assert(locals(l, j)(a) < locals(l, j)(b));
    }
    assert forall|a: int| 0 <= a < len implies 0 <= #[trigger] pos(a) < part_universe(l, j) by {
        assert(locals(l, j)(a) < part_universe(l, j));
    }
    lemma_pack_sparse(
        pef_bytes(universe, l),
        part_at(universe, l, j),
        part_universe(l, j) as int,
        pos,
        len,
    );
}

/// An Elias-Fano partition's payload: low fields, then high bits.
pub proof fn lemma_part_ef(universe: u32, l: Seq<u32>, j: int)
    requires
        pef_valid(universe, l),
        0 <= j < part_count(l.len()),
        part_type(l, j) == 2,
    ensures
        ({
            let buf = pef_bytes(universe, l);
            let at = part_at(universe, l, j);
            let len = part_len(l.len(), j);
            let uni = part_universe(l, j);
            let lw = part_low_width(l, j);
            &&& lw <= 32
            &&& uni / pow2(lw) < 2 * len
            &&& forall|t: int|
                0 <= t < len ==> #[trigger] holds_field(buf, 8 * at + t * lw, lw, locals(l, j)(t))
            &&& 8 * at + len * lw <= 8 * (at + ceil8(len * lw))
            &&& sparse(
                buf,
                8 * (at + ceil8(len * lw)),
                len + uni / pow2(lw),
                ef_high_pos(locals(l, j), lw),
                len,
            )
            &&& 8 * (at + ceil8(len * lw)) + len + uni / pow2(lw) <= 8 * buf.len()
        }),
{
    let buf = pef_bytes(universe, l);
    let at = part_at(universe, l, j);
    let len = part_len(l.len(), j);
    let uni = part_universe(l, j);
    let lw = part_low_width(l, j);
    lemma_part_region(universe, l, j);
    lemma_locals(universe, l, j);
    lemma_partition(universe, l, j);
    lemma_low_width(uni, len as nat);
    lemma_pow2_pos(lw);
    let lows = ef_lows(locals(l, j), len, lw);
    let highs = ef_highs(locals(l, j), len, uni, lw);
    lemma_sub_split(buf, at, lows, highs);
    assert(len * lw >= 0) by (nonlinear_arith)
        requires
            len >= 0,
    ;
    assert forall|t: int| 0 <= t < len implies #[trigger] holds_field(
        buf,
        8 * at + t * lw,
        lw,
        locals(l, j)(t),
    ) by {
        lemma_pack_field(buf, at, locals(l, j), len, lw, t);
    }
    lemma_ef_positions(locals(l, j), len, uni, lw);
    lemma_pack_sparse(buf, at + lows.len(), len + uni / pow2(lw), ef_high_pos(locals(l, j), lw), len);
}

/// Two values held by the same field agree on its bits.
pub proof fn lemma_field_same(buf: Seq<u8>, off: int, w: nat, v1: nat, v2: nat)
    requires
        holds_field(buf, off, w, v1),
        holds_field(buf, off, w, v2),
    ensures
        v1 % pow2(w) == v2 % pow2(w),
{
    lemma_pow2_pos(w);
    assert forall|k: nat| k < w implies #[trigger] bitn(v1 % pow2(w), k) == bitn(v2 % pow2(w), k) by {
        lemma_bitn_mod(v1, w, k);
        lemma_bitn_mod(v2, w, k);
        assert(bitn(v1, k) == bit_at(buf, off + k));
        assert(bitn(v2, k) == bit_at(buf, off + k));
    }
    lemma_bitn_ext(v1 % pow2(w), v2 % pow2(w), w);
}

/// Two position lists that make the same range sparse are equal.
pub proof fn lemma_sparse_same(
    buf: Seq<u8>,
    base: int,
    len: int,
    p1: spec_fn(int) -> int,
    p2: spec_fn(int) -> int,
    m: int,
    i: int,
)
    requires
        sparse(buf, base, len, p1, m),
        sparse(buf, base, len, p2, m),
        0 <= i < m,
    ensures
        p1(i) == p2(i),
{
    lemma_sparse_rank(buf, base, len, p1, m, i);
    lemma_sparse_select(buf, base, len, p2, m, p1(i));
}

/// A value is its high part times `2^w` plus its low part.
pub proof fn lemma_split_value(v: nat, w: nat)
    ensures
        v == (v / pow2(w)) * pow2(w) + v % pow2(w),
{
    lemma_pow2_pos(w);
    lemma_fundamental_div_mod(v as int, pow2(w) as int);
}

/// Two Elias-Fano sequences stored in the same bits are equal.
proof fn lemma_ef_same(
    buf: Seq<u8>,
    lows_at: int,
    highs_base: int,
    hb: int,
    v1: spec_fn(int) -> nat,
    v2: spec_fn(int) -> nat,
    m: int,
    lw: nat,
    i: int,
)
    requires
        0 <= i < m,
        holds_field(buf, lows_at + i * lw, lw, v1(i)),
        holds_field(buf, lows_at + i * lw, lw, v2(i)),
        sparse(buf, highs_base, hb, ef_high_pos(v1, lw), m),
        sparse(buf, highs_base, hb, ef_high_pos(v2, lw), m),
    ensures
        v1(i) == v2(i),
{
    lemma_field_same(buf, lows_at + i * lw, lw, v1(i), v2(i));
    lemma_sparse_same(buf, highs_base, hb, ef_high_pos(v1, lw), ef_high_pos(v2, lw), m, i);
    lemma_split_value(v1(i), lw);
    lemma_split_value(v2(i), lw);
}

/// Equal encodings of lists of one length hold the same partition maxima.
proof fn lemma_same_uppers(universe: u32, l1: Seq<u32>, l2: Seq<u32>, j: int)
    requires
        pef_valid(universe, l1),
        pef_valid(universe, l2),
        l1.len() == l2.len(),
        l1.len() > 0,
        pef_bytes(universe, l1) == pef_bytes(universe, l2),
        0 <= j < part_count(l1.len()),
    ensures
        upper(l1, j) == upper(l2, j),
{
    let buf = pef_bytes(universe, l1);
    let ul = upper_low_width(universe, l1);
    let k = part_count(l1.len()) as int;
    lemma_upper_field(universe, l1, j);
    lemma_upper_field(universe, l2, j);
    lemma_upper_sparse(universe, l1);
    lemma_upper_sparse(universe, l2);
    assert(holds_field(buf, 16 + j * ul, ul, uppers(l1)(j)));
    assert(holds_field(buf, 16 + j * ul, ul, uppers(l2)(j)));
    lemma_ef_same(
        buf,
        16,
        8 * highs_at(l1.len(), ul),
        high_bits(universe as nat, l1.len(), ul),
        uppers(l1),
        uppers(l2),
        k,
        ul,
        j,
    );
}

/// The encoding determines the list: equal encodings of valid lists of
/// one length come from equal lists.
pub proof fn lemma_pef_injective(universe: u32, l1: Seq<u32>, l2: Seq<u32>)
    requires
        pef_valid(universe, l1),
        pef_valid(universe, l2),
        l1.len() == l2.len(),
        pef_bytes(universe, l1) == pef_bytes(universe, l2),
    ensures
        l1 == l2,
{
    if l1.len() > 0 {
        let n = l1.len();
        let buf = pef_bytes(universe, l1);
        lemma_layout(universe, l1);
        lemma_layout(universe, l2);
        assert(offset_width(l1) == offset_width(l2));
        assert forall|i: int| 0 <= i < n implies l1[i] == l2[i] by {
            let j = i / 128;
            let t = i % 128;
            lemma_fundamental_div_mod(i, 128);
            lemma_fundamental_div_mod((n + 127) as int, 128);
            assert(j < part_count(n));
            lemma_partition(universe, l1, j);
            lemma_partition(universe, l2, j);
            assert(t < part_len(n, j));
            lemma_same_uppers(universe, l1, l2, j);
            if j > 0 {
                lemma_same_uppers(universe, l1, l2, j - 1);
            }
            assert(part_start(l1, j) == part_start(l2, j));
            assert(part_universe(l1, j) == part_universe(l2, j));
            assert(part_low_width(l1, j) == part_low_width(l2, j));
            lemma_type_field(universe, l1, j);
            lemma_type_field(universe, l2, j);
            lemma_field_same(
                buf,
                8 * types_at(universe as nat, n, upper_low_width(universe, l1)) + 2 * j,
                2,
                part_type(l1, j),
                part_type(l2, j),
            );
            lemma2_to64();
            assert(part_type(l1, j) == part_type(l2, j));
            lemma_offset_field(universe, l1, j);
            lemma_offset_field(universe, l2, j);
            lemma_field_same(
                buf,
                8 * offsets_at(universe as nat, n, upper_low_width(universe, l1)) + j
                    * offset_width(l1),
                offset_width(l1),
                payload_upto(l1, j).len(),
                payload_upto(l2, j).len(),
            );
            vstd::arithmetic::div_mod::lemma_small_mod(
                payload_upto(l1, j).len(),
                pow2(offset_width(l1)),
            );
            vstd::arithmetic::div_mod::lemma_small_mod(
                payload_upto(l2, j).len(),
                pow2(offset_width(l1)),
            );
            assert(part_at(universe, l1, j) == part_at(universe, l2, j));
            lemma_locals(universe, l1, j);
            lemma_locals(universe, l2, j);
            if part_type(l1, j) == 0 {
                lemma_part_all_ones(universe, l1, j, t);
                lemma_part_all_ones(universe, l2, j, t);
            } else if part_type(l1, j) == 1 {
                lemma_part_bitmap(universe, l1, j);
                lemma_part_bitmap(universe, l2, j);
                lemma_sparse_same(
                    buf,
                    8 * part_at(universe, l1, j),
                    part_universe(l1, j) as int,
                    |a: int| locals(l1, j)(a) as int,
                    |a: int| locals(l2, j)(a) as int,
                    part_len(n, j),
                    t,
                );
            } else {
                lemma_part_ef(universe, l1, j);
                lemma_part_ef(universe, l2, j);
                let at = part_at(universe, l1, j);
                let len = part_len(n, j);
                let lw = part_low_width(l1, j);
                assert(holds_field(buf, 8 * at + t * lw, lw, locals(l1, j)(t)));
                assert(holds_field(buf, 8 * at + t * lw, lw, locals(l2, j)(t)));
                lemma_ef_same(
                    buf,
                    8 * at,
                    8 * (at + ceil8(len * lw)),
                    len + part_universe(l1, j) / pow2(lw),
                    locals(l1, j),
                    locals(l2, j),
                    len,
                    lw,
                    t,
                );
            }
            assert(locals(l1, j)(t) == locals(l2, j)(t));
            assert(128 * j + t == i);
        }
        assert(l1 =~= l2);
    } else {
        assert(l1 =~= l2);
    }
}

/// An encoding's bit positions fit a `usize`.
pub proof fn lemma_buf_bound(universe: u32, l: Seq<u32>)
    requires
        pef_valid(universe, l),
    ensures
        8 * pef_bytes(universe, l).len() <= usize::MAX,
{
    reveal(pef_bytes);
    if l.len() > 0 {
        lemma_layout(universe, l);
    }
}

} // verus!
