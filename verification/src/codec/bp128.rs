//! `bitpacking` crate's `BitPacker4x`: SIMD bitpacking in 128-value blocks,
//! with a VByte tail for the sub-block remainder. No skip data: the cursor
//! decodes blocks one by one and scans. Sorted lists use the crate's
//! strictly-sorted delta mode (`gap - 1`); the first block's initial is
//! `None`, later blocks carry the previous block's last value.

use vstd::prelude::*;
use vstd::string::StringSliceAdditionalSpecFns;

use bitpacking::{BitPacker, BitPacker4x};

use super::lucene::for_delta::{lemma_or_all_fits, or_all};
use super::vbyte::{self, gaps, lemma_undelta_gaps, lemma_undelta_len, lemma_undelta_step, undelta, undelta_fits, undelta_u32};
use super::{accepts, advance, at, first_geq, lemma_first_geq_is, seek_start, Caps, Codec, Cursor, Prepared};
use crate::leb128::{
    lemma_parse_vints_bounds, lemma_parse_vints_mono, lemma_parse_vints_prefix, lemma_parse_vints_roundtrip,
    lemma_varint_len, parse_vints, varint_len, vint_value, vints,
};
use crate::bytes::words_le;
use crate::stream::{strictly_increasing, Kind};

verus! {

#[verifier::external_type_specification]
#[verifier::external_body]
pub struct ExBitPacker4x(BitPacker4x);

/// Values per block.
pub const BLOCK_LEN: usize = 128;

/// Bits needed for `v`, counting up from `b`: the least width at or above
/// `b` that holds it, 32 at most.
pub open spec fn width_from(v: u32, b: u32) -> u32
    decreases 32 - b,
{
    if b >= 32 || v >> b == 0 {
        b
    } else {
        width_from(v, (b + 1) as u32)
    }
}

/// Bits needed for `v`: zero for zero, else its highest set bit plus one.
pub open spec fn bit_width(v: u32) -> u8 {
    width_from(v, 0) as u8
}

/// `v` fits in `b` bits.
pub open spec fn fits(v: u32, b: u8) -> bool {
    b >= 32 || v >> b == 0
}

/// The width the crate picks for a block: the bits of its widest value.
pub open spec fn block_width(block: Seq<u32>) -> u8 {
    bit_width(or_all(block))
}

/// The strictly-sorted deltas: each value minus its predecessor minus one,
/// wrapping, with `initial` (or `u32::MAX` for none) before the first.
pub open spec fn strict_deltas(initial: Option<u32>, block: Seq<u32>) -> Seq<u32> {
    Seq::new(
        block.len(),
        |i: int|
            {
                let prev = if i == 0 {
                    match initial {
                        Some(p) => p,
                        None => u32::MAX,
                    }
                } else {
                    block[i - 1]
                };
                block[i].wrapping_sub(prev).wrapping_sub(1)
            },
    )
}

/// The width the crate picks for a strictly sorted block.
pub open spec fn strict_width(initial: Option<u32>, block: Seq<u32>) -> u8 {
    bit_width(or_all(strict_deltas(initial, block)))
}

proof fn lemma_width_from(v: u32, b: u32)
    requires
        b <= 32,
    ensures
        b <= width_from(v, b) <= 32,
        width_from(v, b) < 32 ==> v >> width_from(v, b) == 0,
    decreases 32 - b,
{
    if !(b >= 32 || v >> b == 0) {
        lemma_width_from(v, (b + 1) as u32);
    }
}

/// Every value of `s` fits the width of their or.
proof fn lemma_width_fits(s: Seq<u32>)
    ensures
        bit_width(or_all(s)) <= 32,
        forall|i: int| 0 <= i < s.len() ==> fits(#[trigger] s[i], bit_width(or_all(s))),
{
    lemma_width_from(or_all(s), 0);
    let w = width_from(or_all(s), 0);
    if w < 32 {
        lemma_or_all_fits(s, w);
        assert forall|i: int| 0 <= i < s.len() implies fits(#[trigger] s[i], bit_width(or_all(s))) by {
            assert(s[i] >> w == 0);
        }
    }
}

/// The bytes `BitPacker4x::compress` writes for a block at width `nb`.
pub uninterp spec fn bp_packed(block: Seq<u32>, nb: u8) -> Seq<u8>;

/// The bytes `BitPacker4x::compress_strictly_sorted` writes for a block.
pub uninterp spec fn bp_packed_strict(initial: Option<u32>, block: Seq<u32>, nb: u8) -> Seq<u8>;

/// The block `BitPacker4x::decompress` reads from packed bytes.
pub uninterp spec fn bp_unpacked(bytes: Seq<u8>, nb: u8) -> Seq<u32>;

/// The block `BitPacker4x::decompress_strictly_sorted` reads from packed bytes.
pub uninterp spec fn bp_unpacked_strict(initial: Option<u32>, bytes: Seq<u8>, nb: u8) -> Seq<u32>;

/// `BitPacker4x::new`: picks the implementation for this CPU.
#[verifier::external_body]
pub(crate) fn bp_new() -> BitPacker4x {
    BitPacker4x::new()
}

/// `BitPacker4x::num_bits`: claims the bits of the largest value, which is
/// the highest bit of their or.
#[verifier::external_body]
pub(crate) fn bp_num_bits(bp: &BitPacker4x, block: &[u32; BLOCK_LEN]) -> (r: u8)
    ensures
        r == block_width(block@),
{
    bp.num_bits(block)
}

/// `BitPacker4x::num_bits_strictly_sorted`: claims the bits of the largest
/// `delta - 1`, as the source computes them.
#[verifier::external_body]
pub(crate) fn bp_num_bits_strictly_sorted(
    bp: &BitPacker4x,
    initial: Option<u32>,
    block: &[u32; BLOCK_LEN],
) -> (r: u8)
    ensures
        r == strict_width(initial, block@),
{
    bp.num_bits_strictly_sorted(initial, block)
}

/// `BitPacker4x::compressed_block_size`: claims `128 * nb / 8` bytes.
#[verifier::external_body]
pub(crate) fn bp_block_size(nb: u8) -> (r: usize)
    ensures
        r == 16 * nb,
{
    BitPacker4x::compressed_block_size(nb)
}

/// `BitPacker4x::compress` into a buffer of exactly the block size. Claims:
/// the bytes are `bp_packed(block, nb)`, `16 nb` of them, and (as the
/// crate's documented example shows) `decompress` gives the block back.
#[verifier::external_body]
pub(crate) fn bp_compress(bp: &BitPacker4x, block: &[u32; BLOCK_LEN], nb: u8) -> (bytes: Vec<u8>)
    requires
        nb <= 32,
        forall|i: int| 0 <= i < BLOCK_LEN ==> fits(#[trigger] block@[i], nb),
    ensures
        bytes@ == bp_packed(block@, nb),
        bytes@.len() == 16 * nb,
        bp_unpacked(bytes@, nb) == block@,
{
    let mut bytes = vec![0u8; BitPacker4x::compressed_block_size(nb)];
    bp.compress(block, &mut bytes, nb);
    bytes
}

/// `BitPacker4x::compress_strictly_sorted` into a buffer of exactly the
/// block size. Claims as [`bp_compress`], with the same `initial` on decode.
#[verifier::external_body]
pub(crate) fn bp_compress_strictly_sorted(
    bp: &BitPacker4x,
    initial: Option<u32>,
    block: &[u32; BLOCK_LEN],
    nb: u8,
) -> (bytes: Vec<u8>)
    requires
        nb <= 32,
        strictly_increasing(block@),
        initial matches Some(p) ==> p < block@[0],
        forall|i: int| 0 <= i < BLOCK_LEN ==> fits(#[trigger] strict_deltas(initial, block@)[i], nb),
    ensures
        bytes@ == bp_packed_strict(initial, block@, nb),
        bytes@.len() == 16 * nb,
        bp_unpacked_strict(initial, bytes@, nb) == block@,
{
    let mut bytes = vec![0u8; BitPacker4x::compressed_block_size(nb)];
    bp.compress_strictly_sorted(initial, block, &mut bytes, nb);
    bytes
}

/// `BitPacker4x::decompress` of one block. Claims: the block is
/// `bp_unpacked(bytes, nb)`.
#[verifier::external_body]
pub(crate) fn bp_decompress(bp: &BitPacker4x, bytes: &[u8], nb: u8) -> (block: [u32; BLOCK_LEN])
    requires
        nb <= 32,
        bytes@.len() == 16 * nb,
    ensures
        block@ == bp_unpacked(bytes@, nb),
{
    let mut block = [0u32; BLOCK_LEN];
    let _ = bp.decompress(bytes, &mut block, nb);
    block
}

/// `BitPacker4x::decompress_strictly_sorted` of one block. Claims: the
/// block is `bp_unpacked_strict(initial, bytes, nb)`.
#[verifier::external_body]
pub(crate) fn bp_decompress_strictly_sorted(
    bp: &BitPacker4x,
    initial: Option<u32>,
    bytes: &[u8],
    nb: u8,
) -> (block: [u32; BLOCK_LEN])
    requires
        nb <= 32,
        bytes@.len() == 16 * nb,
    ensures
        block@ == bp_unpacked_strict(initial, bytes@, nb),
{
    let mut block = [0u32; BLOCK_LEN];
    let _ = bp.decompress_strictly_sorted(initial, bytes, &mut block, nb);
    block
}

/// Block `b` of a list.
pub open spec fn nth_block(list: Seq<u32>, b: int) -> Seq<u32> {
    list.subrange(128 * b, 128 * b + 128)
}

/// The value before block `b`, which strictly sorted blocks delta from.
pub open spec fn block_initial(list: Seq<u32>, b: int) -> Option<u32> {
    if b == 0 {
        None
    } else {
        Some(list[128 * b - 1])
    }
}

/// One encoded block: its width byte, then the packed bits.
pub open spec fn block_bytes(kind: Kind, list: Seq<u32>, b: int) -> Seq<u8> {
    match kind {
        Kind::Sorted => {
            let nb = strict_width(block_initial(list, b), nth_block(list, b));
            seq![nb] + bp_packed_strict(block_initial(list, b), nth_block(list, b), nb)
        },
        Kind::Unsorted => {
            let nb = block_width(nth_block(list, b));
            seq![nb] + bp_packed(nth_block(list, b), nb)
        },
    }
}

/// The first `k` encoded blocks.
pub open spec fn blocks_bytes(kind: Kind, list: Seq<u32>, k: nat) -> Seq<u8>
    decreases k,
{
    if k == 0 {
        Seq::empty()
    } else {
        blocks_bytes(kind, list, (k - 1) as nat) + block_bytes(kind, list, k - 1)
    }
}

/// What the VByte tail carries: gaps for sorted lists, values otherwise.
pub open spec fn tail_input(kind: Kind, list: Seq<u32>) -> Seq<u32> {
    let full = 128 * (list.len() / 128);
    match kind {
        Kind::Sorted => gaps(list).subrange(full as int, list.len() as int),
        Kind::Unsorted => list.subrange(full as int, list.len() as int),
    }
}

/// The bytes `encode` appends.
pub open spec fn bp128_encoding(kind: Kind, list: Seq<u32>) -> Seq<u8> {
    blocks_bytes(kind, list, list.len() / 128) + vints(tail_input(kind, list))
}

/// The values and end offset of the first `k` blocks of `buf`.
pub open spec fn parse_blocks(kind: Kind, buf: Seq<u8>, k: nat) -> (Seq<u32>, int)
    decreases k,
{
    if k == 0 {
        (Seq::empty(), 0)
    } else {
        let prev = parse_blocks(kind, buf, (k - 1) as nat);
        let pos = prev.1;
        let nb = buf[pos];
        let bytes = buf.subrange(pos + 1, pos + 1 + 16 * nb);
        let block = match kind {
            Kind::Sorted => bp_unpacked_strict(
                if k == 1 {
                    None
                } else {
                    Some(prev.0.last())
                },
                bytes,
                nb,
            ),
            Kind::Unsorted => bp_unpacked(bytes, nb),
        };
        (prev.0 + block, pos + 1 + 16 * nb)
    }
}

/// Each of the first `k` blocks has a width byte of at most 32 and all its
/// bytes inside `buf`, and unpacks to 128 values.
pub open spec fn blocks_ok(kind: Kind, buf: Seq<u8>, k: nat) -> bool
    decreases k,
{
    if k == 0 {
        true
    } else {
        let prev = parse_blocks(kind, buf, (k - 1) as nat);
        let pos = prev.1;
        &&& blocks_ok(kind, buf, (k - 1) as nat)
        &&& 0 <= pos < buf.len()
        &&& buf[pos] <= 32
        &&& pos + 1 + 16 * buf[pos] <= buf.len()
        &&& parse_blocks(kind, buf, k).0.len() == 128 * k
    }
}

/// The tail's list values from its varint values.
pub open spec fn tail_values(kind: Kind, before: Seq<u32>, g: Seq<u32>) -> Seq<u32> {
    match kind {
        Kind::Unsorted => g,
        Kind::Sorted => if before.len() == 0 {
            undelta_u32(g)
        } else {
            undelta_u32(seq![before.last()] + g).subrange(1, g.len() + 1 as int)
        },
    }
}

/// The tail has one value per varint.
pub proof fn lemma_tail_values_len(kind: Kind, before: Seq<u32>, g: Seq<u32>)
    ensures
        tail_values(kind, before, g).len() == g.len(),
{
    if kind == Kind::Sorted {
        if before.len() == 0 {
            lemma_undelta_len(g);
        } else {
            lemma_undelta_len(seq![before.last()] + g);
        }
    }
}

/// The tail's running sums fit a `u32`.
pub open spec fn tail_fits(kind: Kind, before: Seq<u32>, g: Seq<u32>) -> bool {
    match kind {
        Kind::Unsorted => true,
        Kind::Sorted => if before.len() == 0 {
            undelta_fits(g)
        } else {
            undelta_fits(seq![before.last()] + g)
        },
    }
}

/// `buf` holds `n / 128` well-formed blocks and then `n % 128` varints
/// whose running sums fit when sorted.
pub open spec fn bp128_decodable(kind: Kind, n: nat, buf: Seq<u8>) -> bool {
    let k = n / 128;
    let p = parse_blocks(kind, buf, k);
    &&& n * 8 <= usize::MAX
    &&& blocks_ok(kind, buf, k)
    &&& parse_vints(buf.subrange(p.1, buf.len() as int), n % 128) matches Some(t) && tail_fits(
        kind,
        p.0,
        t.0,
    )
}

/// The blocks' values, then the tail's.
pub open spec fn bp128_decoding(kind: Kind, n: nat, buf: Seq<u8>) -> Seq<u32> {
    let k = n / 128;
    let p = parse_blocks(kind, buf, k);
    match parse_vints(buf.subrange(p.1, buf.len() as int), n % 128) {
        Some(t) => p.0 + tail_values(kind, p.0, t.0),
        None => p.0,
    }
}

/// Bytes after the first `k` well-formed blocks do not change how they parse.
pub proof fn lemma_parse_blocks_prefix(kind: Kind, a: Seq<u8>, b: Seq<u8>, k: nat)
    requires
        blocks_ok(kind, a, k),
    ensures
        parse_blocks(kind, a + b, k) == parse_blocks(kind, a, k),
        blocks_ok(kind, a + b, k),
        parse_blocks(kind, a, k).1 <= a.len(),
    decreases k,
{
    if k > 0 {
        lemma_parse_blocks_prefix(kind, a, b, (k - 1) as nat);
        let pos = parse_blocks(kind, a, (k - 1) as nat).1;
        let nb = a[pos];
        assert((a + b)[pos] == nb);
        assert((a + b).subrange(pos + 1, pos + 1 + 16 * nb) =~= a.subrange(pos + 1, pos + 1 + 16 * nb));
    }
}

/// Well-formed blocks stay well-formed when fewer are read.
pub proof fn lemma_blocks_ok_mono(kind: Kind, buf: Seq<u8>, j: nat, k: nat)
    requires
        j <= k,
        blocks_ok(kind, buf, k),
    ensures
        blocks_ok(kind, buf, j),
    decreases k - j,
{
    if j < k {
        lemma_blocks_ok_mono(kind, buf, j, (k - 1) as nat);
    }
}

/// Offsets of well-formed blocks never go past the buffer.
pub proof fn lemma_parse_blocks_end(kind: Kind, buf: Seq<u8>, k: nat)
    requires
        blocks_ok(kind, buf, k),
    ensures
        0 <= parse_blocks(kind, buf, k).1 <= buf.len(),
        parse_blocks(kind, buf, k).0.len() == 128 * k,
    decreases k,
{
    if k > 0 {
        lemma_parse_blocks_end(kind, buf, (k - 1) as nat);
    }
}

/// Sorted tails: the running sums from the value before the tail are the
/// tail itself.
proof fn lemma_sorted_tail(list: Seq<u32>, full: int)
    requires
        strictly_increasing(list),
        0 <= full <= list.len(),
    ensures
        tail_fits(Kind::Sorted, list.subrange(0, full), gaps(list).subrange(full, list.len() as int)),
        tail_values(Kind::Sorted, list.subrange(0, full), gaps(list).subrange(full, list.len() as int))
            == list.subrange(full, list.len() as int),
{
    let g = gaps(list).subrange(full, list.len() as int);
    if full == 0 {
        assert(g =~= gaps(list));
        lemma_undelta_gaps(list);
        assert(list.subrange(0, list.len() as int) =~= list);
    } else {
        let s = list.subrange(full - 1, list.len() as int);
        assert(strictly_increasing(s));
        assert(gaps(s) =~= seq![list[full - 1]] + g);
        lemma_undelta_gaps(s);
        assert(list.subrange(0, full).last() == list[full - 1]);
        assert(undelta_u32(gaps(s)).subrange(1, g.len() + 1 as int) =~= list.subrange(
            full,
            list.len() as int,
        ));
    }
}

/// One more encoded block parses as the next 128 values.
proof fn lemma_blocks_step(kind: Kind, l: Seq<u32>, b: nat)
    requires
        128 * b + 128 <= l.len(),
        blocks_ok(kind, blocks_bytes(kind, l, b), b),
        parse_blocks(kind, blocks_bytes(kind, l, b), b) == (
            l.subrange(0, (128 * b) as int),
            blocks_bytes(kind, l, b).len() as int,
        ),
        kind == Kind::Sorted ==> ({
            let nb = strict_width(block_initial(l, b as int), nth_block(l, b as int));
            &&& nb <= 32
            &&& bp_packed_strict(block_initial(l, b as int), nth_block(l, b as int), nb).len() == 16 * nb
            &&& bp_unpacked_strict(
                block_initial(l, b as int),
                bp_packed_strict(block_initial(l, b as int), nth_block(l, b as int), nb),
                nb,
            ) == nth_block(l, b as int)
        }),
        kind == Kind::Unsorted ==> ({
            let nb = block_width(nth_block(l, b as int));
            &&& nb <= 32
            &&& bp_packed(nth_block(l, b as int), nb).len() == 16 * nb
            &&& bp_unpacked(bp_packed(nth_block(l, b as int), nb), nb) == nth_block(l, b as int)
        }),
    ensures
        blocks_ok(kind, blocks_bytes(kind, l, b + 1), b + 1),
        parse_blocks(kind, blocks_bytes(kind, l, b + 1), b + 1) == (
            l.subrange(0, (128 * (b + 1)) as int),
            blocks_bytes(kind, l, b + 1).len() as int,
        ),
{
    let pre = blocks_bytes(kind, l, b);
    let bb = block_bytes(kind, l, b as int);
    let whole = pre + bb;
    assert(blocks_bytes(kind, l, b + 1) == whole);
    lemma_parse_blocks_prefix(kind, pre, bb, b);
    let prev = parse_blocks(kind, whole, b);
    assert(prev == parse_blocks(kind, pre, b));
    let pos = pre.len() as int;
    assert(prev.1 == pos);
    assert(whole[pos] == bb[0]);
    let nb = bb[0];
    let bytes = whole.subrange(pos + 1, pos + 1 + 16 * nb);
    let blk = nth_block(l, b as int);
    assert(l.subrange(0, (128 * b) as int) + blk =~= l.subrange(0, (128 * (b + 1)) as int));
    match kind {
        Kind::Sorted => {
            let init = block_initial(l, b as int);
            let w = strict_width(init, blk);
            assert(bb == seq![w] + bp_packed_strict(init, blk, w));
            assert(nb == w);
            assert(bytes =~= bp_packed_strict(init, blk, w));
            if b > 0 {
                assert(prev.0.last() == l[128 * b - 1]);
            }
            let pinit: Option<u32> = if b + 1 == 1 {
                None
            } else {
                Some(prev.0.last())
            };
            assert(pinit == init);
            assert(parse_blocks(kind, whole, b + 1).0 == prev.0 + blk);
        },
        Kind::Unsorted => {
            let w = block_width(blk);
            assert(bb == seq![w] + bp_packed(blk, w));
            assert(nb == w);
            assert(bytes =~= bp_packed(blk, w));
            assert(parse_blocks(kind, whole, b + 1).0 == prev.0 + blk);
        },
    }
}

/// Append the VByte tail of a list whose full blocks end at `full`.
fn put_tail(kind: Kind, list: &[u32], full: usize, out: &mut Vec<u8>)
    requires
        full == 128 * (list@.len() / 128),
        kind == Kind::Sorted ==> strictly_increasing(list@),
    ensures
        final(out)@ == old(out)@ + vints(tail_input(kind, list@)),
{
    let ghost l = list@;
    let ghost tail = tail_input(kind, l);
    let ghost mid = out@;
    let n = list.len();
    let mut prev: u32 = if full > 0 {
        list[full - 1]
    } else {
        0
    };
    let mut i: usize = full;
    assert(tail.subrange(0, 0) =~= Seq::<u32>::empty());
    while i < n
        invariant
            l == list@,
            n == l.len(),
            full == 128 * (n / 128),
            full <= i <= n,
            kind == Kind::Sorted ==> strictly_increasing(l),
            tail == tail_input(kind, l),
            i > 0 ==> prev == l[i - 1],
            out@ == mid + vints(tail.subrange(0, i - full)),
        decreases n - i,
    {
        let v = list[i];
        let x = match kind {
            Kind::Sorted => {
                if i == 0 {
                    v
                } else {
                    assert(l[i - 1] < l[i as int]);
                    v - prev - 1
                }
            },
            Kind::Unsorted => v,
        };
        assert(x == tail[i - full]);
        vbyte::put(x, out);
        proof {
            assert(tail.subrange(0, i - full + 1).drop_last() =~= tail.subrange(0, i - full));
        }
        prev = v;
        i = i + 1;
    }
    assert(tail.subrange(0, n - full) =~= tail);
}

/// A prefix of well-formed blocks parses as a prefix of the values.
pub proof fn lemma_parse_blocks_mono(kind: Kind, buf: Seq<u8>, j: nat, k: nat)
    requires
        j <= k,
        blocks_ok(kind, buf, k),
    ensures
        parse_blocks(kind, buf, j).0 == parse_blocks(kind, buf, k).0.subrange(0, (128 * j) as int),
    decreases k - j,
{
    lemma_parse_blocks_end(kind, buf, k);
    if j < k {
        lemma_parse_blocks_mono(kind, buf, j, (k - 1) as nat);
        lemma_parse_blocks_end(kind, buf, (k - 1) as nat);
        assert(parse_blocks(kind, buf, k).0.subrange(0, (128 * j) as int) =~= parse_blocks(
            kind,
            buf,
            (k - 1) as nat,
        ).0.subrange(0, (128 * j) as int));
    } else {
        assert(parse_blocks(kind, buf, k).0.subrange(0, (128 * j) as int) =~= parse_blocks(kind, buf, k).0);
    }
}

/// Append the `rem` tail values whose varints start `tail`: the varints as
/// they are for unsorted lists, running sums from `last` (the value before
/// the tail, when there are blocks) for sorted ones.
pub(crate) fn put_tail_values(
    kind: Kind,
    tail: &[u8],
    rem: usize,
    k: usize,
    last: u32,
    Ghost(before_tail): Ghost<Seq<u32>>,
    out: &mut Vec<u32>,
)
    requires
        parse_vints(tail@, rem as nat) matches Some(t) && tail_fits(kind, before_tail, t.0),
        before_tail.len() == 128 * k,
        kind == Kind::Sorted && k > 0 ==> before_tail.last() == last,
    ensures
        final(out)@ == old(out)@ + tail_values(
            kind,
            before_tail,
            parse_vints(tail@, rem as nat).unwrap().0,
        ),
{
    let ghost g = parse_vints(tail@, rem as nat).unwrap().0;
    let ghost mid = out@;
    proof {
        lemma_parse_vints_bounds(tail@, rem as nat);
        if kind == Kind::Sorted {
            if k > 0 {
                lemma_undelta_len(seq![last] + g);
                lemma_undelta_step(seq![last] + g, 0);
            } else {
                lemma_undelta_len(g);
            }
        }
    }
    let mut p: usize = 0;
    let mut prev: u32 = last;
    let mut i: usize = 0;
    while i < rem
        invariant
            i <= rem,
            parse_vints(tail@, rem as nat) is Some,
            g == parse_vints(tail@, rem as nat).unwrap().0,
            g.len() == rem,
            tail_fits(kind, before_tail, g),
            before_tail.len() == 128 * k,
            kind == Kind::Sorted && k > 0 ==> before_tail.last() == last,
            kind == Kind::Sorted && k > 0 ==> undelta(seq![last] + g).len() == rem + 1,
            kind == Kind::Sorted && k == 0 ==> undelta(g).len() == rem,
            p == parse_vints(tail@, i as nat).unwrap().1,
            kind == Kind::Sorted && k > 0 ==> prev as int == undelta(seq![last] + g)[i as int],
            kind == Kind::Sorted && k == 0 && i > 0 ==> prev as int == undelta(g)[i - 1],
            out@ == mid + tail_values(kind, before_tail, g).subrange(0, i as int),
        decreases rem - i,
    {
        proof {
            lemma_parse_vints_mono(tail@, i as nat, rem as nat);
            lemma_parse_vints_mono(tail@, (i + 1) as nat, rem as nat);
            lemma_parse_vints_bounds(tail@, i as nat);
            assert(parse_vints(tail@, (i + 1) as nat).unwrap().0[i as int] == g[i as int]);
        }
        let x = vbyte::take(tail, &mut p);
        proof {
            assert(x == g[i as int]);
        }
        let v = match kind {
            Kind::Sorted => {
                if i == 0 && k == 0 {
                    proof {
                        lemma_undelta_step(g, 0);
                    }
                    x
                } else {
                    proof {
                        if k > 0 {
                            lemma_undelta_step(seq![last] + g, i + 1);
                            assert((seq![last] + g)[i + 1] == x);
                            assert(undelta(seq![last] + g)[i + 1] <= u32::MAX);
                        } else {
                            lemma_undelta_step(g, i as int);
                            assert(undelta(g)[i as int] <= u32::MAX);
                        }
                        vbyte::lemma_undelta_nonneg(g);
                    }
                    prev + x + 1
                }
            },
            Kind::Unsorted => x,
        };
        proof {
            if kind == Kind::Sorted {
                if k > 0 {
                    lemma_undelta_step(seq![last] + g, i + 1);
                    vbyte::lemma_undelta_nonneg(seq![last] + g);
                    assert(undelta(seq![last] + g)[i + 1] <= u32::MAX);
                } else {
                    lemma_undelta_step(g, i as int);
                    vbyte::lemma_undelta_nonneg(g);
                    assert(undelta(g)[i as int] <= u32::MAX);
                }
            }
            assert(v == tail_values(kind, before_tail, g)[i as int]);
        }
        out.push(v);
        proof {
            assert(out@ =~= mid + tail_values(kind, before_tail, g).subrange(0, i + 1));
        }
        prev = v;
        i = i + 1;
    }
    proof {
        assert(tail_values(kind, before_tail, g).subrange(0, rem as int) =~= tail_values(
            kind,
            before_tail,
            g,
        ));
    }
}

/// Unpack block `b` of `buf`, whose width byte is at `byte`; `initial` is
/// the value before the block for sorted lists. Returns the block and the
/// offset just past it.
pub(crate) fn unpack_block(
    bp: &BitPacker4x,
    kind: Kind,
    buf: &[u8],
    byte: usize,
    initial: Option<u32>,
    Ghost(k): Ghost<nat>,
    Ghost(b): Ghost<nat>,
) -> (r: ([u32; BLOCK_LEN], usize))
    requires
        b < k,
        blocks_ok(kind, buf@, k),
        byte == parse_blocks(kind, buf@, b).1,
        kind == Kind::Sorted ==> initial == (if b == 0 {
            None
        } else {
            Some(parse_blocks(kind, buf@, b).0.last())
        }),
    ensures
        r.0@ == parse_blocks(kind, buf@, b + 1).0.subrange(128 * b as int, 128 * b + 128 as int),
        r.1 == parse_blocks(kind, buf@, b + 1).1,
{
    let ghost bs = buf@;
    proof {
        lemma_blocks_ok_mono(kind, bs, b + 1, k);
        lemma_parse_blocks_end(kind, bs, b);
    }
    let nb = buf[byte];
    let size = bp_block_size(nb);
    let bytes = crate::bytes::sub_slice(buf, byte + 1, byte + 1 + size);
    let block = match kind {
        Kind::Sorted => bp_decompress_strictly_sorted(bp, initial, bytes, nb),
        Kind::Unsorted => bp_decompress(bp, bytes, nb),
    };
    proof {
        let pb = parse_blocks(kind, bs, b + 1).0;
        assert(pb == parse_blocks(kind, bs, b).0 + block@);
        assert(pb.subrange(128 * b as int, 128 * b + 128 as int) =~= block@);
    }
    (block, byte + 1 + size)
}

/// Offset of block `b`'s width byte, found by stepping over the blocks
/// before it.
pub(crate) fn block_offset(kind: Kind, buf: &[u8], Ghost(k): Ghost<nat>, b: usize) -> (r: usize)
    requires
        b <= k,
        blocks_ok(kind, buf@, k),
    ensures
        r == parse_blocks(kind, buf@, b as nat).1,
{
    let mut byte: usize = 0;
    let mut j: usize = 0;
    while j < b
        invariant
            j <= b <= k,
            blocks_ok(kind, buf@, k),
            byte == parse_blocks(kind, buf@, j as nat).1,
        decreases b - j,
    {
        proof {
            lemma_blocks_ok_mono(kind, buf@, (j + 1) as nat, k);
            lemma_parse_blocks_end(kind, buf@, j as nat);
        }
        let nb = buf[byte];
        byte = byte + 1 + 16 * (nb as usize);
        j = j + 1;
    }
    byte
}

/// The shape of a decodable buffer's values: the blocks' values, then `n % 128`
/// tail values, each from the one before.
proof fn lemma_decoding_shape(n: nat, buf: Seq<u8>)
    requires
        bp128_decodable(Kind::Sorted, n, buf),
    ensures
        ({
            let k = n / 128;
            let p = parse_blocks(Kind::Sorted, buf, k);
            let tb = buf.subrange(p.1, buf.len() as int);
            let g = parse_vints(tb, n % 128).unwrap().0;
            let vals = bp128_decoding(Kind::Sorted, n, buf);
            &&& 0 <= p.1 <= buf.len()
            &&& p.0.len() == 128 * k
            &&& g.len() == n % 128
            &&& vals.len() == n
            &&& vals.subrange(0, (128 * k) as int) == p.0
            &&& forall|j: int|
                #![trigger g[j]]
                0 <= j < n % 128 ==> {
                    let x = vals[128 * k + j];
                    &&& (k == 0 && j == 0 ==> x == g[0])
                    &&& (k == 0 && j > 0 ==> x == vals[128 * k + j - 1] + g[j] + 1)
                    &&& (k > 0 ==> x == vals[128 * k + j - 1] + g[j] + 1)
                }
        }),
{
    let k = n / 128;
    let p = parse_blocks(Kind::Sorted, buf, k);
    let tb = buf.subrange(p.1, buf.len() as int);
    lemma_parse_blocks_end(Kind::Sorted, buf, k);
    lemma_parse_vints_bounds(tb, n % 128);
    let g = parse_vints(tb, n % 128).unwrap().0;
    let vals = bp128_decoding(Kind::Sorted, n, buf);
    let tv = tail_values(Kind::Sorted, p.0, g);
    assert(vals == p.0 + tv);
    if k == 0 {
        lemma_undelta_len(g);
        assert(p.0.len() == 0);
        assert forall|j: int| #![trigger g[j]] 0 <= j < n % 128 implies {
            let x = vals[128 * k + j];
            &&& (k == 0 && j == 0 ==> x == g[0])
            &&& (k == 0 && j > 0 ==> x == vals[128 * k + j - 1] + g[j] + 1)
            &&& (k > 0 ==> x == vals[128 * k + j - 1] + g[j] + 1)
        } by {
            lemma_undelta_step(g, j);
            vbyte::lemma_undelta_nonneg(g);
            if j > 0 {
                lemma_undelta_step(g, j - 1);
            }
        }
    } else {
        let h = seq![p.0.last()] + g;
        lemma_undelta_len(h);
        assert forall|j: int| #![trigger g[j]] 0 <= j < n % 128 implies {
            let x = vals[128 * k + j];
            &&& (k == 0 && j == 0 ==> x == g[0])
            &&& (k == 0 && j > 0 ==> x == vals[128 * k + j - 1] + g[j] + 1)
            &&& (k > 0 ==> x == vals[128 * k + j - 1] + g[j] + 1)
        } by {
            lemma_undelta_step(h, j + 1);
            lemma_undelta_step(h, j);
            vbyte::lemma_undelta_nonneg(h);
            assert(h[j + 1] == g[j]);
            if j == 0 {
                assert(vals[128 * k - 1] == p.0.last());
            }
        }
    }
    assert(vals.subrange(0, (128 * k) as int) =~= p.0);
}

/// The last value of block `b`.
pub open spec fn last_of(s: Seq<u32>, b: int) -> u32 {
    s[128 * b + 127]
}

/// The skip table over `k` encoded blocks: per block, its last value
/// (sorted lists; zero otherwise), then the offset of its width byte as a
/// `u32`.
pub open spec fn skip_entries(kind: Kind, k: nat, payload: Seq<u8>) -> Seq<u32> {
    Seq::new(
        2 * k,
        |j: int|
            if j % 2 == 0 {
                match kind {
                    Kind::Sorted => parse_blocks(kind, payload, (j / 2 + 1) as nat).0.last(),
                    Kind::Unsorted => 0u32,
                }
            } else {
                parse_blocks(kind, payload, (j / 2) as nat).1 as u32
            },
    )
}

/// Block-by-block cursor: decodes a 128-value block when the scan first
/// enters it, keeps it, and falls through to the VByte tail. No skip data,
/// so a seek to the far end decodes every block on the way.
struct Bp128Cursor<'a> {
    bp: BitPacker4x,
    buf: &'a [u8],
    /// The skip table over `buf`'s blocks (empty without one).
    table: &'a [u8],
    /// Whether seeks jump through `table`.
    skip: bool,
    n: usize,
    full: usize,
    /// Offset of the next full block's width byte, then of the next tail varint.
    byte: usize,
    block: [u32; BLOCK_LEN],
    block_num: usize,
    idx: usize,
    cur: Option<u32>,
    tail_r: usize,
    tail_last: u32,
}

impl<'a> Bp128Cursor<'a> {
    closed spec fn vals(&self) -> Seq<u32> {
        bp128_decoding(Kind::Sorted, self.n as nat, self.buf@)
    }

    closed spec fn k(&self) -> nat {
        (self.n / 128) as nat
    }

    closed spec fn bvals(&self) -> Seq<u32> {
        parse_blocks(Kind::Sorted, self.buf@, self.k()).0
    }

    closed spec fn tail_start(&self) -> int {
        parse_blocks(Kind::Sorted, self.buf@, self.k()).1
    }

    closed spec fn tail_bytes(&self) -> Seq<u8> {
        self.buf@.subrange(self.tail_start(), self.buf@.len() as int)
    }

    closed spec fn base(&self) -> bool {
        &&& bp128_decodable(Kind::Sorted, self.n as nat, self.buf@)
        &&& self.full == 128 * (self.n / 128)
        &&& self.buf@.len() <= usize::MAX
        &&& self.skip ==> {
            &&& self.table@ == words_le(skip_entries(Kind::Sorted, self.k(), self.buf@))
            &&& self.buf@.len() <= u32::MAX
            &&& strictly_increasing(self.vals())
        }
    }

    /// The block held is block `block_num` of the values, when there is one.
    closed spec fn block_ok(&self) -> bool {
        self.block_num == usize::MAX || (self.block_num < self.k() && self.block@
            == self.bvals().subrange(128 * self.block_num, 128 * self.block_num + 128))
    }

    /// The decoding state after reading value `i` (`-1`: nothing read yet).
    closed spec fn pos_ok(&self, i: int) -> bool {
        &&& i == -1 ==> self.block_num == usize::MAX && self.byte == 0 && self.tail_r == 0
        &&& 0 <= i < self.full ==> {
            &&& self.block_num == i / 128
            &&& self.byte == parse_blocks(Kind::Sorted, self.buf@, (self.block_num + 1) as nat).1
            &&& self.block@ == self.bvals().subrange(
                128 * self.block_num,
                128 * self.block_num + 128,
            )
            &&& self.tail_r == 0
        }
        &&& self.full <= i < self.n ==> {
            &&& self.tail_r == i - self.full + 1
            &&& self.tail_last == self.vals()[i]
            &&& self.byte == self.tail_start() + parse_vints(
                self.tail_bytes(),
                self.tail_r as nat,
            ).unwrap().1
        }
    }

    closed spec fn inv(&self) -> bool {
        &&& self.base()
        &&& self.block_ok()
        &&& self.idx == usize::MAX || self.idx <= self.n
        &&& self.cur == (if self.idx == usize::MAX {
            None
        } else {
            at(self.vals(), self.idx as int)
        })
        &&& self.idx == usize::MAX ==> self.pos_ok(-1)
        &&& self.idx != usize::MAX && self.idx < self.n ==> self.pos_ok(self.idx as int)
    }

    /// Value `i`, decoding from the state after value `i - 1`.
    fn value_at(&mut self, i: usize) -> (v: u32)
        requires
            old(self).base(),
            old(self).block_ok(),
            i < old(self).n,
            old(self).pos_ok(i - 1),
        ensures
            final(self).base(),
            final(self).block_ok(),
            final(self).buf == old(self).buf,
            final(self).table == old(self).table,
            final(self).skip == old(self).skip,
            final(self).n == old(self).n,
            final(self).full == old(self).full,
            final(self).idx == old(self).idx,
            final(self).cur == old(self).cur,
            final(self).pos_ok(i as int),
            v == old(self).vals()[i as int],
    {
        let ghost vals = self.vals();
        let ghost bvals = self.bvals();
        let ghost k = self.k();
        proof {
            lemma_decoding_shape(self.n as nat, self.buf@);
            assert forall|j: int| 0 <= j < 128 * k implies #[trigger] vals[j] == bvals[j] by {
                assert(vals.subrange(0, (128 * k) as int)[j] == vals[j]);
            }
        }
        if i < self.full {
            let b = i / BLOCK_LEN;
            if b != self.block_num {
                let initial = if b > 0 {
                    Some(self.block[BLOCK_LEN - 1])
                } else {
                    None
                };
                proof {
                    if i > 0 {
                        assert(b == self.block_num + 1);
                        assert(self.block@[127] == bvals[128 * b - 1]);
                    }
                }
                self.load_block(b, initial);
            }
            proof {
                assert(self.block@[(i % 128) as int] == bvals[i as int]);
            }
            self.block[i % BLOCK_LEN]
        } else {
            if self.tail_r == 0 && self.full > 0 {
                proof {
                    assert(self.block_num + 1 == k);
                    assert(self.block@[127] == bvals[self.full - 1]);
                }
                self.tail_last = self.block[BLOCK_LEN - 1];
            }
            self.next_tail();
            self.tail_last
        }
    }

    fn load_block(&mut self, b: usize, initial: Option<u32>)
        requires
            old(self).base(),
            b < old(self).n / 128,
            old(self).byte == parse_blocks(Kind::Sorted, old(self).buf@, b as nat).1,
            initial == (if b == 0 {
                None
            } else {
                Some(old(self).bvals()[128 * b - 1])
            }),
        ensures
            final(self).buf == old(self).buf,
            final(self).table == old(self).table,
            final(self).skip == old(self).skip,
            final(self).n == old(self).n,
            final(self).full == old(self).full,
            final(self).idx == old(self).idx,
            final(self).cur == old(self).cur,
            final(self).tail_r == old(self).tail_r,
            final(self).tail_last == old(self).tail_last,
            final(self).block_num == b,
            final(self).byte == parse_blocks(Kind::Sorted, old(self).buf@, (b + 1) as nat).1,
            final(self).block@ == old(self).bvals().subrange(128 * b, 128 * b + 128),
    {
        let ghost bs = self.buf@;
        let ghost k = self.k();
        proof {
            lemma_blocks_ok_mono(Kind::Sorted, bs, b as nat, k);
            lemma_parse_blocks_end(Kind::Sorted, bs, b as nat);
            lemma_parse_blocks_mono(Kind::Sorted, bs, (b + 1) as nat, k);
            lemma_parse_blocks_mono(Kind::Sorted, bs, b as nat, k);
            if b > 0 {
                assert(parse_blocks(Kind::Sorted, bs, b as nat).0.last() == self.bvals()[128 * b - 1]);
            }
        }
        let (block, byte) = unpack_block(&self.bp, Kind::Sorted, self.buf, self.byte, initial, Ghost(k), Ghost(b as nat));
        self.block = block;
        self.byte = byte;
        self.block_num = b;
        proof {
            let pb = parse_blocks(Kind::Sorted, bs, (b + 1) as nat).0;
            assert(self.bvals().subrange(128 * b, 128 * b + 128) =~= pb.subrange(
                128 * b,
                128 * b + 128,
            ));
        }
    }

    fn next_tail(&mut self)
        requires
            old(self).base(),
            old(self).tail_r < old(self).n - old(self).full,
            old(self).byte == old(self).tail_start() + parse_vints(
                old(self).tail_bytes(),
                old(self).tail_r as nat,
            ).unwrap().1,
            old(self).tail_r == 0 && old(self).full > 0 ==> old(self).tail_last == old(
                self,
            ).vals()[old(self).full - 1],
            old(self).tail_r > 0 ==> old(self).tail_last == old(self).vals()[old(self).full
                + old(self).tail_r - 1],
        ensures
            final(self).buf == old(self).buf,
            final(self).table == old(self).table,
            final(self).skip == old(self).skip,
            final(self).n == old(self).n,
            final(self).full == old(self).full,
            final(self).idx == old(self).idx,
            final(self).cur == old(self).cur,
            final(self).block == old(self).block,
            final(self).block_num == old(self).block_num,
            final(self).tail_r == old(self).tail_r + 1,
            final(self).tail_last == old(self).vals()[old(self).full + old(self).tail_r],
            final(self).byte == old(self).tail_start() + parse_vints(
                old(self).tail_bytes(),
                (old(self).tail_r + 1) as nat,
            ).unwrap().1,
    {
        let ghost bs = self.buf@;
        let ghost tb = self.tail_bytes();
        let ghost r = self.tail_r;
        let ghost rem = (self.n % 128) as nat;
        proof {
            lemma_decoding_shape(self.n as nat, bs);
            lemma_parse_vints_mono(tb, (r + 1) as nat, rem);
            lemma_parse_vints_mono(tb, r as nat, rem);
            lemma_parse_vints_bounds(tb, r as nat);
            let q = parse_vints(tb, r as nat).unwrap().1;
            crate::leb128::lemma_varint_len_shift(bs, self.tail_start(), q, 5);
            let len = varint_len(tb, q, 5);
            lemma_varint_len(tb, q, 0, 5);
            assert(bs.subrange(self.tail_start() + q, self.tail_start() + q + len) =~= tb.subrange(
                q,
                q + len,
            ));
            assert(parse_vints(tb, (r + 1) as nat).unwrap().0[r as int] == parse_vints(
                tb,
                rem,
            ).unwrap().0[r as int]);
        }
        let gap = vbyte::take(self.buf, &mut self.byte);
        self.tail_r = self.tail_r + 1;
        self.tail_last = if self.full > 0 || self.tail_r > 1 {
            self.tail_last + gap + 1
        } else {
            gap
        };
    }
}

impl<'a> Bp128Cursor<'a> {
    /// The current index, `-1` before the first value.
    closed spec fn at_index(&self) -> int {
        if self.idx == usize::MAX {
            -1
        } else {
            self.idx as int
        }
    }

    /// The last value of block `b`, from the table.
    fn table_last(&self, b: usize) -> (r: u32)
        requires
            self.base(),
            self.skip,
            b < self.n / 128,
        ensures
            r == self.bvals()[128 * b + 127],
            r == last_of(self.bvals(), b as int),
    {
        let ghost e = skip_entries(Kind::Sorted, self.k(), self.buf@);
        proof {
            crate::bytes::lemma_words_le(e);
            crate::bytes::lemma_le_words_of(e);
            assert(crate::bytes::le_words(self.table@)[2 * b as int] == crate::bytes::u32_at(
                self.table@,
                4 * (2 * b as int),
            ));
            lemma_blocks_ok_mono(Kind::Sorted, self.buf@, (b + 1) as nat, self.k());
            lemma_parse_blocks_end(Kind::Sorted, self.buf@, (b + 1) as nat);
            lemma_parse_blocks_mono(Kind::Sorted, self.buf@, (b + 1) as nat, self.k());
        }
        crate::bytes::get_u32_le(self.table, 8 * b)
    }

    /// The offset of block `b`'s width byte, from the table.
    fn table_offset(&self, b: usize) -> (r: usize)
        requires
            self.base(),
            self.skip,
            b < self.n / 128,
        ensures
            r == parse_blocks(Kind::Sorted, self.buf@, b as nat).1,
    {
        let ghost e = skip_entries(Kind::Sorted, self.k(), self.buf@);
        proof {
            crate::bytes::lemma_words_le(e);
            crate::bytes::lemma_le_words_of(e);
            assert(crate::bytes::le_words(self.table@)[2 * b + 1] == crate::bytes::u32_at(
                self.table@,
                4 * (2 * b + 1),
            ));
            lemma_blocks_ok_mono(Kind::Sorted, self.buf@, b as nat, self.k());
            lemma_parse_blocks_end(Kind::Sorted, self.buf@, b as nat);
        }
        crate::bytes::get_u32_le(self.table, 8 * b + 4) as usize
    }

    /// The first block in `[from, k)` whose last value reaches `target`,
    /// or `k`: a binary search of the table.
    fn find_block(&self, from: usize, target: u32) -> (lo: usize)
        requires
            self.base(),
            self.skip,
            from <= self.n / 128,
        ensures
            from <= lo <= self.n / 128,
            forall|b: int| from <= b < lo ==> #[trigger] last_of(self.bvals(), b) < target,
            lo < self.n / 128 ==> last_of(self.bvals(), lo as int) >= target,
    {
        let ghost vals = self.vals();
        let ghost bvals = self.bvals();
        let ghost k = self.k();
        let nb = self.n / BLOCK_LEN;
        proof {
            lemma_decoding_shape(self.n as nat, self.buf@);
            assert forall|b1: int, b2: int| 0 <= b1 < b2 < nb implies #[trigger] last_of(bvals, b1)
                < #[trigger] last_of(bvals, b2) by {
                assert(128 * b1 + 127 < 128 * b2 + 127 < 128 * k);
                assert(vals.subrange(0, (128 * k) as int)[128 * b1 + 127] == vals[128 * b1 + 127]);
                assert(vals.subrange(0, (128 * k) as int)[128 * b2 + 127] == vals[128 * b2 + 127]);
                assert(vals[128 * b1 + 127] < vals[128 * b2 + 127]);
            }
        }
        let mut lo = from;
        let mut hi = nb;
        while lo < hi
            invariant
                self.base(),
                self.skip,
                bvals == self.bvals(),
                nb == self.n / 128,
                from <= lo <= hi <= nb,
                forall|b1: int, b2: int| 0 <= b1 < b2 < nb ==> #[trigger] last_of(bvals, b1)
                    < #[trigger] last_of(bvals, b2),
                forall|b: int| from <= b < lo ==> #[trigger] last_of(bvals, b) < target,
                forall|b: int| hi <= b < nb ==> #[trigger] last_of(bvals, b) >= target,
            decreases hi - lo,
        {
            let mid = lo + (hi - lo) / 2;
            let last = self.table_last(mid);
            if last < target {
                proof {
                    assert forall|b: int| from <= b < mid + 1 implies #[trigger] last_of(bvals, b)
                        < target by {
                        if b < mid {
                            assert(last_of(bvals, b) < last_of(bvals, mid as int));
                        }
                    }
                }
                lo = mid + 1;
            } else {
                proof {
                    assert forall|b: int| mid <= b < nb implies #[trigger] last_of(bvals, b)
                        >= target by {
                        if b > mid {
                            assert(last_of(bvals, mid as int) < last_of(bvals, b));
                        }
                    }
                }
                hi = mid;
            }
        }
        lo
    }

    /// Position on the first value `>= target` in block `lo` at or after
    /// in-block position `from`; the block's last value reaches the target,
    /// so there is one. Decodes the block through the table unless held.
    fn land_in_block(&mut self, lo: usize, from: usize, target: u32) -> (r: Option<u32>)
        requires
            old(self).base(),
            old(self).skip,
            old(self).block_ok(),
            old(self).tail_r == 0,
            lo < old(self).n / 128,
            from < 128,
            last_of(old(self).bvals(), lo as int) >= target,
            old(self).block_num == lo ==> old(self).byte == parse_blocks(
                Kind::Sorted,
                old(self).buf@,
                (lo + 1) as nat,
            ).1,
        ensures
            final(self).base(),
            final(self).block_ok(),
            final(self).buf == old(self).buf,
            final(self).n == old(self).n,
            final(self).full == old(self).full,
            final(self).table == old(self).table,
            final(self).skip == old(self).skip,
            final(self).tail_r == 0,
            final(self).block_num == lo,
            final(self).byte == parse_blocks(Kind::Sorted, old(self).buf@, (lo + 1) as nat).1,
            128 * lo + from <= final(self).idx < 128 * lo + 128,
            forall|m: int|
                128 * lo + from <= m < final(self).idx ==> old(self).bvals()[m] < target,
            old(self).bvals()[final(self).idx as int] >= target,
            final(self).cur == Some(old(self).bvals()[final(self).idx as int]),
            r == final(self).cur,
    {
        let ghost bvals = self.bvals();
        let ghost k = self.k();
        proof {
            lemma_decoding_shape(self.n as nat, self.buf@);
        }
        if self.block_num != lo {
            self.byte = self.table_offset(lo);
            let initial = if lo > 0 {
                Some(self.table_last(lo - 1))
            } else {
                None
            };
            self.load_block(lo, initial);
        }
        assert(lo * 128 + 128 <= self.n) by (nonlinear_arith)
            requires
                lo < self.n / 128,
        ;
        let mut j: usize = from;
        while j < BLOCK_LEN && self.block[j] < target
            invariant
                from <= j <= 128,
                self.block@ == bvals.subrange(128 * lo, 128 * lo + 128),
                bvals.len() == 128 * k,
                lo < k,
                last_of(bvals, lo as int) >= target,
                forall|m: int| from <= m < j ==> self.block@[m] < target,
            decreases 128 - j,
        {
            j = j + 1;
        }
        proof {
            if j == 128 {
                assert(self.block@[127] == bvals[128 * lo + 127]);
            }
        }
        let v = self.block[j];
        self.idx = lo * BLOCK_LEN + j;
        self.cur = Some(v);
        proof {
            assert forall|m: int| 128 * lo + from <= m < self.idx implies bvals[m] < target by {
                assert(self.block@[m - 128 * lo] == bvals[m]);
            }
            assert(self.block@[j as int] == bvals[self.idx as int]);
        }
        Some(v)
    }

    /// Read tail values until one reaches `target`, from where the tail
    /// reading stands; everything from `s0` up to there is below it.
    fn scan_tail(&mut self, target: u32, Ghost(s0): Ghost<int>) -> (r: Option<u32>)
        requires
            old(self).base(),
            old(self).block_ok(),
            old(self).tail_r <= old(self).n - old(self).full,
            0 <= s0 <= old(self).full + old(self).tail_r,
            old(self).byte == old(self).tail_start() + parse_vints(
                old(self).tail_bytes(),
                old(self).tail_r as nat,
            ).unwrap().1,
            old(self).tail_r > 0 ==> old(self).tail_last == old(self).vals()[old(self).full
                + old(self).tail_r - 1],
            old(self).tail_r == 0 && old(self).full > 0 ==> old(self).tail_last == old(
                self,
            ).vals()[old(self).full - 1],
            forall|j: int| s0 <= j < old(self).full + old(self).tail_r ==> old(self).vals()[j] < target,
        ensures
            final(self).base(),
            final(self).block_ok(),
            final(self).buf == old(self).buf,
            final(self).n == old(self).n,
            final(self).full == old(self).full,
            final(self).table == old(self).table,
            final(self).skip == old(self).skip,
            final(self).block_num == old(self).block_num,
            s0 <= final(self).idx <= final(self).n,
            forall|j: int| s0 <= j < final(self).idx ==> old(self).vals()[j] < target,
            final(self).idx < final(self).n ==> final(self).pos_ok(final(self).idx as int) && old(
                self,
            ).vals()[final(self).idx as int] >= target && final(self).idx >= final(self).full,
            final(self).cur == at(old(self).vals(), final(self).idx as int),
            r == final(self).cur,
    {
        let ghost vals = self.vals();
        let rem = self.n - self.full;
        proof {
            lemma_decoding_shape(self.n as nat, self.buf@);
        }
        while self.tail_r < rem
            invariant
                self.base(),
                self.block_ok(),
                self.vals() == vals,
                self.buf == old(self).buf,
                self.n == old(self).n,
                self.full == old(self).full,
                self.table == old(self).table,
                self.skip == old(self).skip,
                self.block_num == old(self).block_num,
                vals == old(self).vals(),
                vals.len() == self.n,
                0 <= s0 <= self.full + self.tail_r,
                rem == self.n - self.full,
                self.tail_r <= rem,
                self.byte == self.tail_start() + parse_vints(self.tail_bytes(), self.tail_r as nat).unwrap().1,
                self.tail_r > 0 ==> self.tail_last == vals[self.full + self.tail_r - 1],
                self.tail_r == 0 && self.full > 0 ==> self.tail_last == vals[self.full - 1],
                forall|j: int| s0 <= j < self.full + self.tail_r ==> vals[j] < target,
            decreases rem - self.tail_r,
        {
            self.next_tail();
            if self.tail_last >= target {
                let v = self.tail_last;
                self.idx = self.full + self.tail_r - 1;
                self.cur = Some(v);
                return Some(v);
            }
        }
        self.idx = self.n;
        self.cur = None;
        None
    }

    /// Seek through the table: find the first block at or after the
    /// current one whose last value reaches the target, decode only that
    /// block, and scan it; past the last block, scan the tail.
    #[verifier::rlimit(100)]
    #[verifier::spinoff_prover]
    fn seek(&mut self, target: u32) -> (r: Option<u32>)
        requires
            old(self).inv(),
            old(self).skip,
            old(self).cur matches Some(c) ==> c < target,
        ensures
            final(self).inv(),
            final(self).vals() == old(self).vals(),
            final(self).at_index() == first_geq(
                old(self).vals(),
                seek_start(old(self).at_index()),
                target,
            ),
            r == at(final(self).vals(), final(self).at_index()),
    {
        let ghost vals = self.vals();
        let ghost bvals = self.bvals();
        let ghost k = self.k();
        let ghost s0 = seek_start(self.at_index());
        proof {
            lemma_decoding_shape(self.n as nat, self.buf@);
            assert forall|j: int| 0 <= j < 128 * k implies #[trigger] vals[j] == bvals[j] by {
                assert(vals.subrange(0, (128 * k) as int)[j] == vals[j]);
            }
        }
        if self.idx != usize::MAX && self.idx >= self.n {
            proof {
                lemma_first_geq_is(vals, s0, target, vals.len() as int);
            }
            return None;
        }
        let nb = self.n / BLOCK_LEN;
        let cur_block = if self.idx == usize::MAX {
            0
        } else {
            self.idx / BLOCK_LEN
        };
        let from_block = if cur_block < nb {
            cur_block
        } else {
            nb
        };
        let lo = self.find_block(from_block, target);
        proof {
            // every value from the start up to block `lo` is below the target
            assert forall|j: int| s0 <= j < 128 * lo implies vals[j] < target by {
                let b = j / 128;
                assert(from_block <= b < lo);
                assert(last_of(bvals, b) < target);
                assert(vals[j] <= vals[128 * b + 127]);
            }
        }
        if lo < nb {
            let from = if lo == cur_block && self.idx != usize::MAX {
                self.idx % BLOCK_LEN
            } else {
                0
            };
            let r = self.land_in_block(lo, from, target);
            proof {
                let i = self.idx as int;
                assert forall|m: int| s0 <= m < i implies vals[m] < target by {
                    if m >= 128 * lo + from {
                        assert(bvals[m] < target);
                    }
                }
                assert(vals[i] == bvals[i]);
                lemma_first_geq_is(vals, s0, target, i);
            }
            return r;
        }
        if self.tail_r == 0 {
            if nb > 0 {
                let off = self.table_offset(nb - 1);
                proof {
                    lemma_blocks_ok_mono(Kind::Sorted, self.buf@, (nb - 1) as nat, k);
                    lemma_parse_blocks_end(Kind::Sorted, self.buf@, (nb - 1) as nat);
                }
                self.byte = off + 1 + 16 * (self.buf[off] as usize);
                self.tail_last = self.table_last(nb - 1);
            } else {
                self.byte = 0;
            }
        }
        proof {
            lemma_parse_blocks_end(Kind::Sorted, self.buf@, k);
            lemma_parse_vints_bounds(self.tail_bytes(), 0);
        }
        let r = self.scan_tail(target, Ghost(s0));
        proof {
            lemma_first_geq_is(vals, s0, target, self.idx as int);
        }
        r
    }
}

impl<'a> Cursor for Bp128Cursor<'a> {
    closed spec fn wf(&self) -> bool {
        self.inv()
    }

    closed spec fn values(&self) -> Seq<u32> {
        self.vals()
    }

    closed spec fn index(&self) -> int {
        self.at_index()
    }

    fn next_geq(&mut self, target: u32) -> (r: Option<u32>) {
        let ghost vals = self.vals();
        let ghost s0 = seek_start(self.index());
        proof {
            lemma_decoding_shape(self.n as nat, self.buf@);
        }
        match self.cur {
            Some(c) => {
                if c >= target {
                    proof {
                        lemma_first_geq_is(vals, s0, target, self.index());
                    }
                    return Some(c);
                }
            },
            None => {},
        }
        if self.skip {
            return self.seek(target);
        }
        loop
            invariant
                self.wf(),
                self.vals() == vals,
                old(self).vals() == vals,
                s0 == seek_start(old(self).index()),
                s0 <= self.index() + 1,
                0 <= s0 <= vals.len(),
                forall|j: int| s0 <= j <= self.index() && j < vals.len() ==> vals[j] < target,
            decreases vals.len() - self.index(),
        {
            match self.next() {
                Some(v) => {
                    if v >= target {
                        proof {
                            lemma_first_geq_is(vals, s0, target, self.index());
                        }
                        return Some(v);
                    }
                },
                None => {
                    proof {
                        lemma_first_geq_is(vals, s0, target, vals.len() as int);
                    }
                    return None;
                },
            }
        }
    }

    fn next(&mut self) -> (r: Option<u32>) {
        proof {
            lemma_decoding_shape(self.n as nat, self.buf@);
        }
        let i = if self.idx == usize::MAX {
            0
        } else if self.idx < self.n {
            self.idx + 1
        } else {
            self.idx
        };
        if i < self.n {
            let v = self.value_at(i);
            self.idx = i;
            self.cur = Some(v);
        } else {
            self.idx = i;
            self.cur = None;
        }
        self.cur
    }
}

/// A cursor over a sorted packed section of `n` values; with `skip`, seeks
/// jump through `table`, which then indexes the section exactly.
pub(crate) fn payload_cursor<'a>(buf: &'a [u8], table: &'a [u8], n: usize, skip: bool) -> (r: Option<
    Box<dyn Cursor + 'a>,
>)
    requires
        bp128_decodable(Kind::Sorted, n as nat, buf@),
        strictly_increasing(bp128_decoding(Kind::Sorted, n as nat, buf@)),
        skip ==> table@ == words_le(skip_entries(Kind::Sorted, (n / 128) as nat, buf@)) && buf@.len()
            <= u32::MAX,
    ensures
        r is Some,
        r.unwrap().wf(),
        r.unwrap().values() == bp128_decoding(Kind::Sorted, n as nat, buf@),
        r.unwrap().index() == -1,
{
    let _blen = buf.len();
    let c = Bp128Cursor {
        bp: bp_new(),
        buf,
        table,
        skip,
        n,
        full: n / BLOCK_LEN * BLOCK_LEN,
        byte: 0,
        block: [0u32; BLOCK_LEN],
        block_num: usize::MAX,
        idx: usize::MAX,
        cur: None,
        tail_r: 0,
        tail_last: 0,
    };
    assert(c.wf());
    let b: Box<dyn Cursor + 'a> = Box::new(c);
    let r = Some(b);
    assert(r.unwrap().wf());
    assert(r.unwrap().values() == bp128_decoding(Kind::Sorted, n as nat, buf@));
    assert(r.unwrap().index() == -1);
    r
}

/// In a decodable buffer, block `b` ends with value `128 b + 127` of the list.
pub proof fn lemma_block_last(kind: Kind, n: nat, buf: Seq<u8>, b: nat)
    requires
        bp128_decodable(kind, n, buf),
        b < n / 128,
    ensures
        parse_blocks(kind, buf, b + 1).0.len() == 128 * (b + 1),
        parse_blocks(kind, buf, b + 1).0.last() == bp128_decoding(kind, n, buf)[128 * b + 127 as int],
        parse_blocks(kind, buf, (n / 128) as nat).0 == bp128_decoding(kind, n, buf).subrange(
            0,
            128 * (n / 128) as int,
        ),
{
    let k = (n / 128) as nat;
    lemma_parse_blocks_end(kind, buf, k);
    lemma_blocks_ok_mono(kind, buf, b + 1, k);
    lemma_parse_blocks_end(kind, buf, b + 1);
    lemma_parse_blocks_mono(kind, buf, b + 1, k);
    let p = parse_blocks(kind, buf, k);
    let d = bp128_decoding(kind, n, buf);
    assert(d.subrange(0, 128 * k as int) =~= p.0);
    assert(d[128 * b + 127 as int] == p.0[128 * b + 127 as int]);
}

pub struct Bp128;

impl Codec for Bp128 {
    open spec fn spec_caps(&self) -> Caps {
        Caps { sorted_only: false, streaming_encoder: true, seek: true, random_access: false }
    }

    open spec fn in_place(&self) -> bool {
        true
    }

    open spec fn encoding(&self, kind: Kind, universe: u32, list: Seq<u32>) -> Seq<u8> {
        bp128_encoding(kind, list)
    }

    open spec fn decodable(&self, kind: Kind, universe: u32, n: nat, buf: Seq<u8>) -> bool {
        bp128_decodable(kind, n, buf)
    }

    open spec fn decoding(&self, kind: Kind, universe: u32, n: nat, buf: Seq<u8>) -> Seq<u32> {
        bp128_decoding(kind, n, buf)
    }

    open spec fn get_any(&self) -> bool {
        true
    }

    open spec fn lossless(&self) -> bool {
        true
    }

    fn is_lossless(&self) -> (r: bool) {
        true
    }

    open spec fn label(&self) -> Seq<u8> {
        "bp128".spec_bytes()
    }

    fn name(&self) -> (r: &'static str) {
        "bp128"
    }

    fn caps(&self) -> (c: Caps) {
        Caps { sorted_only: false, streaming_encoder: true, seek: true, random_access: false }
    }

    #[verifier::rlimit(60)]
    #[verifier::spinoff_prover]
    fn encode(&self, kind: Kind, universe: u32, list: &[u32], out: &mut Vec<u8>) {
        let ghost start = out@;
        let ghost l = list@;
        let bp = bp_new();
        let n = list.len();
        let nblocks = n / BLOCK_LEN;
        let mut initial: Option<u32> = None;
        let mut block: [u32; BLOCK_LEN] = [0u32; BLOCK_LEN];
        let mut b: usize = 0;
        assert(l.subrange(0, 0) =~= Seq::<u32>::empty());
        while b < nblocks
            invariant
                l == list@,
                n == l.len(),
                nblocks == n / 128,
                n <= usize::MAX,
                b <= nblocks,
                kind == Kind::Sorted ==> strictly_increasing(l),
                out@ == start + blocks_bytes(kind, l, b as nat),
                blocks_ok(kind, blocks_bytes(kind, l, b as nat), b as nat),
                parse_blocks(kind, blocks_bytes(kind, l, b as nat), b as nat) == (
                    l.subrange(0, 128 * b),
                    blocks_bytes(kind, l, b as nat).len() as int,
                ),
                initial == block_initial(l, b as int),
            decreases nblocks - b,
        {
            assert(128 * b + 128 <= n) by (nonlinear_arith)
                requires
                    b < nblocks,
                    nblocks == n / 128,
            ;
            let base = b * 128;
            let mut i: usize = 0;
            while i < BLOCK_LEN
                invariant
                    base + 128 <= l.len(),
                    l == list@,
                    i <= 128,
                    forall|j: int| 0 <= j < i ==> #[trigger] block@[j] == l[base + j],
                decreases 128 - i,
            {
                block[i] = list[base + i];
                i = i + 1;
            }
            assert(block@ =~= nth_block(l, b as int));
            let ghost pre = blocks_bytes(kind, l, b as nat);
            let ghost before = out@;
            match kind {
                Kind::Sorted => {
                    let nb = bp_num_bits_strictly_sorted(&bp, initial, &block);
                    proof {
                        lemma_width_fits(strict_deltas(initial, block@));
                        if b > 0 {
                            assert(l[128 * b - 1] < l[128 * b]);
                        }
                    }
                    let bytes = bp_compress_strictly_sorted(&bp, initial, &block, nb);
                    out.push(nb);
                    crate::bytes::append_bytes(out, bytes.as_slice());
                },
                Kind::Unsorted => {
                    let nb = bp_num_bits(&bp, &block);
                    proof {
                        lemma_width_fits(block@);
                    }
                    let bytes = bp_compress(&bp, &block, nb);
                    out.push(nb);
                    crate::bytes::append_bytes(out, bytes.as_slice());
                },
            }
            proof {
                let bb = block_bytes(kind, l, b as int);
                assert(out@ =~= before + bb);
                assert(blocks_bytes(kind, l, (b + 1) as nat) == pre + bb);
                lemma_blocks_step(kind, l, b as nat);
            }
            initial = Some(block[BLOCK_LEN - 1]);
            b = b + 1;
        }
        let full = nblocks * BLOCK_LEN;
        assert(full == 128 * (n / 128));
        put_tail(kind, list, full, out);
        let ghost tail = tail_input(kind, l);
        proof {
            let k = n / 128;
            let enc = bp128_encoding(kind, l);
            let pre = blocks_bytes(kind, l, k as nat);
            assert(enc == pre + vints(tail));
            lemma_parse_blocks_prefix(kind, pre, vints(tail), k as nat);
            assert(enc.subrange(pre.len() as int, enc.len() as int) =~= vints(tail));
            lemma_parse_vints_roundtrip(tail);
            assert(tail.len() == n % 128);
            match kind {
                Kind::Sorted => {
                    lemma_sorted_tail(l, full as int);
                },
                Kind::Unsorted => {},
            }
            assert(l.subrange(0, full as int) + l.subrange(full as int, n as int) =~= l);
        }
    }

    fn decode(&self, kind: Kind, universe: u32, n: usize, buf: &[u8], out: &mut Vec<u32>) {
        let ghost start = out@;
        let ghost bs = buf@;
        let bp = bp_new();
        let k = n / BLOCK_LEN;
        let blen = buf.len();
        let mut byte: usize = 0;
        let mut last: u32 = 0;
        let mut b: usize = 0;
        while b < k
            invariant
                bs == buf@,
                blen == bs.len(),
                k == n / 128,
                b <= k,
                blocks_ok(kind, bs, k as nat),
                byte == parse_blocks(kind, bs, b as nat).1,
                out@ == start + parse_blocks(kind, bs, b as nat).0,
                b > 0 ==> last == parse_blocks(kind, bs, b as nat).0.last(),
            decreases k - b,
        {
            proof {
                lemma_blocks_ok_mono(kind, bs, (b + 1) as nat, k as nat);
                lemma_parse_blocks_end(kind, bs, b as nat);
            }
            let nb = buf[byte];
            let size = bp_block_size(nb);
            let bytes = crate::bytes::sub_slice(buf, byte + 1, byte + 1 + size);
            let block = match kind {
                Kind::Sorted => {
                    let initial = if b == 0 {
                        None
                    } else {
                        Some(last)
                    };
                    bp_decompress_strictly_sorted(&bp, initial, bytes, nb)
                },
                Kind::Unsorted => bp_decompress(&bp, bytes, nb),
            };
            let ghost before = out@;
            let mut i: usize = 0;
            while i < BLOCK_LEN
                invariant
                    i <= 128,
                    out@ == before + block@.subrange(0, i as int),
                decreases 128 - i,
            {
                out.push(block[i]);
                proof {
                    assert(out@ =~= before + block@.subrange(0, i + 1));
                }
                i = i + 1;
            }
            proof {
                assert(block@.subrange(0, 128) =~= block@);
                assert(parse_blocks(kind, bs, (b + 1) as nat).0 == parse_blocks(kind, bs, b as nat).0
                    + block@);
            }
            last = block[BLOCK_LEN - 1];
            byte = byte + 1 + size;
            b = b + 1;
        }
        proof {
            lemma_parse_blocks_end(kind, bs, k as nat);
        }
        let ghost before_tail = parse_blocks(kind, bs, k as nat).0;
        let tail = crate::bytes::sub_slice(buf, byte, blen);
        let rem = n % BLOCK_LEN;
        put_tail_values(kind, tail, rem, k, last, Ghost(before_tail), out);
    }

    fn aux_bytes(&self, universe: u32, n: usize, buf: &[u8]) -> (r: Option<usize>)
        ensures
            r is None,
    {
        None
    }

    fn cursor<'a>(&self, universe: u32, n: usize, buf: &'a [u8]) -> (r: Option<
        Box<dyn Cursor + 'a>,
    >) {
        payload_cursor(buf, crate::bytes::sub_slice(buf, 0, 0), n, false)
    }

    fn get(&self, kind: Kind, universe: u32, n: usize, buf: &[u8], i: usize) -> (r: Option<u32>) {
        None
    }

    fn open<'a>(&self, kind: Kind, universe: u32, n: usize, buf: &'a [u8]) -> (r: Option<
        Box<dyn Prepared + 'a>,
    >) {
        None
    }
}

} // verus!
