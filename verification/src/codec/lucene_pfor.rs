//! Lucene 10.3.1 `PForUtil` over 128-value blocks: the way Lucene stores
//! freqs and positions. Full blocks go through `lucene::pfor`; the trailing
//! `n % 128` values are plain vints. Sorted lists are delta-coded with
//! `prev` starting at `u32::MAX` (Lucene's -1) so every delta is at least
//! one. No header, no skip data: `n` and `universe` arrive out of band.

use vstd::prelude::*;
use vstd::string::StringSliceAdditionalSpecFns;

use super::lucene::io::{byte_at, pos_after, stream, stream_varint_len, write_vint, Reader};
use super::lucene::pfor::{self, block_value, decode_len, RAW_TOKEN};
use super::lucene::BLOCK_SIZE;
use super::{Caps, Codec, Cursor, Prepared};
use crate::leb128::{vint_bytes, vint_value};
use crate::stream::Kind;

verus! {

pub struct LucenePFor;

/// The value the delta at `j` is taken from: the one before it, Lucene's
/// -1 (`u32::MAX`) for the first.
pub open spec fn prev_value(list: Seq<u32>, j: int) -> u32 {
    if j <= 0 {
        u32::MAX
    } else {
        list[j - 1]
    }
}

/// What the encoder stores for value `j`: its wrapping delta for a sorted
/// list, the value itself otherwise.
pub open spec fn stored_value(kind: Kind, list: Seq<u32>, j: int) -> u32 {
    if kind == Kind::Sorted {
        list[j].wrapping_sub(prev_value(list, j))
    } else {
        list[j]
    }
}

/// The vints of the stored values from `from` up to `to`.
pub open spec fn vints_between(kind: Kind, list: Seq<u32>, from: int, to: int) -> Seq<u8>
    decreases to - from,
{
    if to <= from {
        Seq::empty()
    } else {
        vints_between(kind, list, from, to - 1) + vint_bytes(stored_value(kind, list, to - 1))
    }
}

/// The trailing bytes of an encoding: the vints of the values after the
/// last full block.
pub open spec fn tail_vints(kind: Kind, list: Seq<u32>) -> Seq<u8> {
    vints_between(kind, list, ((list.len() / 128) * 128) as int, list.len() as int)
}

/// Append `v`, keeping what `out` held.
fn push_keep(out: &mut Vec<u32>, v: u32)
    ensures
        final(out)@ == old(out)@.push(v),
{
    out.push(v);
}

/// Where block `b` of an encoding starts: each block takes what
/// `pfor::decode` reports, pinned at the end of the bytes.
pub open spec fn block_pos(buf: Seq<u8>, b: nat) -> int
    decreases b,
{
    if b == 0 {
        0
    } else {
        let p = block_pos(buf, (b - 1) as nat);
        let used = decode_len(buf.subrange(p, buf.len() as int));
        if p + used >= buf.len() {
            buf.len() as int
        } else {
            p + used
        }
    }
}

/// The bytes from block `b` on.
pub open spec fn block_bytes(buf: Seq<u8>, b: nat) -> Seq<u8> {
    buf.subrange(block_pos(buf, b), buf.len() as int)
}

/// Where trailing vint `t` starts, the first at `p0`.
pub open spec fn vint_pos(buf: Seq<u8>, p0: int, t: nat) -> int
    decreases t,
{
    if t == 0 {
        p0
    } else {
        let p = vint_pos(buf, p0, (t - 1) as nat);
        pos_after(p, stream_varint_len(buf, p, 0, 5), buf.len() as int)
    }
}

/// Stored value `j` of a list of `n`: from the packed block it falls in,
/// or a trailing vint after the last full block.
pub open spec fn stored_at(buf: Seq<u8>, n: nat, j: int) -> u32 {
    let full = n / 128;
    if j < full * 128 {
        block_value(block_bytes(buf, (j / 128) as nat), j % 128)
    } else {
        let p = vint_pos(buf, block_pos(buf, full), (j - full * 128) as nat);
        vint_value(stream(buf, p, stream_varint_len(buf, p, 0, 5)))
    }
}

/// Value `j` that decoding gives: the stored value, or for a sorted list
/// the running sum of the stored values from `u32::MAX` (Lucene's -1).
pub open spec fn decoded_at(kind: Kind, buf: Seq<u8>, n: nat, j: int) -> u32
    decreases j + 1,
{
    if kind == Kind::Sorted {
        let prev = if j <= 0 {
            u32::MAX
        } else {
            decoded_at(kind, buf, n, j - 1)
        };
        prev.wrapping_add(stored_at(buf, n, j))
    } else {
        stored_at(buf, n, j)
    }
}

proof fn lemma_block_index(b: int, i: int)
    requires
        0 <= b,
        0 <= i < 128,
    ensures
        (128 * b + i) / 128 == b,
        (128 * b + i) % 128 == i,
{
    vstd::arithmetic::div_mod::lemma_fundamental_div_mod_converse(128 * b + i, 128, b, i);
}

impl Codec for LucenePFor {
    open spec fn spec_caps(&self) -> Caps {
        Caps { sorted_only: false, streaming_encoder: true, seek: false, random_access: false }
    }

    open spec fn in_place(&self) -> bool {
        true
    }

    /// Not characterized: which bytes a packed block gets is stated only for
    /// the raw and the all-equal forms (see `pfor::encode`), so the round
    /// trip is tested at run time.
    open spec fn encoding(&self, kind: Kind, universe: u32, list: Seq<u32>) -> Seq<u8> {
        Seq::empty()
    }

    /// Decoding never fails: short input reads as zeros.
    open spec fn decodable(&self, kind: Kind, universe: u32, n: nat, buf: Seq<u8>) -> bool {
        true
    }

    /// The values `decoded_at` gives, as `decode` states them.
    open spec fn decoding(&self, kind: Kind, universe: u32, n: nat, buf: Seq<u8>) -> Seq<u32> {
        Seq::new(n, |j: int| decoded_at(kind, buf, n, j))
    }

    open spec fn get_any(&self) -> bool {
        true
    }

    open spec fn lossless(&self) -> bool {
        false
    }

    fn is_lossless(&self) -> (r: bool) {
        false
    }

    open spec fn label(&self) -> Seq<u8> {
        "lucene-pfor".spec_bytes()
    }

    fn name(&self) -> (r: &'static str) {
        "lucene-pfor"
    }

    fn caps(&self) -> (c: Caps) {
        Caps { sorted_only: false, streaming_encoder: true, seek: false, random_access: false }
    }

    /// Appends at least one byte per full block (a packed block), then the
    /// vints of the remaining values.
    fn encode(&self, kind: Kind, universe: u32, list: &[u32], out: &mut Vec<u8>)
        ensures
            final(out)@.len() >= old(out)@.len() + list@.len() / 128 + tail_vints(kind, list@).len(),
            final(out)@.subrange(
                final(out)@.len() - tail_vints(kind, list@).len(),
                final(out)@.len() as int,
            ) == tail_vints(kind, list@),
    {
        let ghost start = out@;
        let n_full = list.len() / BLOCK_SIZE;
        let mut prev: u32 = u32::MAX;
        let mut block: [u32; BLOCK_SIZE] = [0u32; BLOCK_SIZE];
        let mut b: usize = 0;
        while b < n_full
            invariant
                n_full == list@.len() / 128,
                list@.len() <= usize::MAX,
                b <= n_full,
                out@.len() >= start.len() + b,
                out@.subrange(0, start.len() as int) == start,
                kind == Kind::Sorted ==> prev == prev_value(list@, b * 128),
            decreases n_full - b,
        {
            assert(b * 128 + 128 <= list@.len()) by (nonlinear_arith)
                requires
                    b < n_full,
                    n_full == list@.len() / 128,
            ;
            let base = b * 128;
            let mut i: usize = 0;
            while i < BLOCK_SIZE
                invariant
                    base + 128 <= list@.len(),
                    list@.len() <= usize::MAX,
                    i <= BLOCK_SIZE,
                    kind == Kind::Sorted ==> prev == prev_value(list@, base + i),
                decreases BLOCK_SIZE - i,
            {
                let v = list[base + i];
                if kind == Kind::Sorted {
                    block[i] = v.wrapping_sub(prev);
                    prev = v;
                } else {
                    block[i] = v;
                }
                i = i + 1;
            }
            let ghost before = out@;
            pfor::encode(&block, out);
            proof {
                assert(out@.subrange(0, start.len() as int) =~= before.subrange(
                    0,
                    start.len() as int,
                ));
                assert((b + 1) * 128 == base + 128) by (nonlinear_arith)
                    requires
                        base == b * 128,
                ;
            }
            b = b + 1;
        }
        assert(n_full * 128 <= list@.len()) by (nonlinear_arith)
            requires
                n_full == list@.len() / 128,
        ;
        let ghost mid = out@;
        let ghost from = (n_full * 128) as int;
        let mut i: usize = n_full * BLOCK_SIZE;
        while i < list.len()
            invariant
                from <= i <= list@.len(),
                from == (list@.len() / 128) * 128,
                mid.len() >= start.len() + list@.len() / 128,
                out@ == mid + vints_between(kind, list@, from, i as int),
                kind == Kind::Sorted ==> prev == prev_value(list@, i as int),
            decreases list@.len() - i,
        {
            let v = list[i];
            if kind == Kind::Sorted {
                write_vint(out, v.wrapping_sub(prev));
                prev = v;
            } else {
                write_vint(out, v);
            }
            proof {
                assert(out@ =~= mid + vints_between(kind, list@, from, i + 1));
            }
            i = i + 1;
        }
        proof {
            let t = tail_vints(kind, list@);
            assert(out@.subrange(out@.len() - t.len(), out@.len() as int) =~= t);
        }
    }

    /// Appends `n` values: value `j` is the one `decoded_at` gives.
    fn decode(&self, kind: Kind, universe: u32, n: usize, buf: &[u8], out: &mut Vec<u32>)
        ensures
            forall|j: int|
                0 <= j < n ==> final(out)@[old(out)@.len()
                    + j] == #[trigger] decoded_at(kind, buf@, n as nat, j),
    {
        let ghost start = out@;
        let ghost bb = buf@;
        let ghost nn = n as nat;
        let mut r = Reader::new(buf);
        let n_full = n / BLOCK_SIZE;
        let mut block: [u32; BLOCK_SIZE] = [0u32; BLOCK_SIZE];
        let mut prev: u32 = u32::MAX;
        let mut b: usize = 0;
        while b < n_full
            invariant
                n_full == n / 128,
                nn == n,
                bb == buf@,
                b <= n_full,
                r.buf@ == buf@,
                r.pos <= buf@.len(),
                r.pos == block_pos(bb, b as nat),
                out@.len() == start.len() + 128 * b,
                out@.subrange(0, start.len() as int) == start,
                forall|j: int|
                    0 <= j < 128 * b ==> out@[start.len() + j]
                        == #[trigger] decoded_at(kind, bb, nn, j),
                kind == Kind::Sorted && b > 0 ==> prev
                    == decoded_at(kind, bb, nn, 128 * b - 1),
                b == 0 ==> prev == u32::MAX,
            decreases n_full - b,
        {
            let ghost p = r.pos as int;
            let tail = pfor::tail_of(buf, r.pos);
            assert(tail@ == block_bytes(bb, b as nat));
            let consumed = pfor::decode(tail, &mut block);
            r.skip(consumed);
            assert(r.pos == block_pos(bb, (b + 1) as nat));
            let mut i: usize = 0;
            let ghost before = out@;
            while i < BLOCK_SIZE
                invariant
                    i <= BLOCK_SIZE,
                    b < n_full,
                    n_full == n / 128,
                    nn == n,
                    bb == buf@,
                    out@.len() == before.len() + i,
                    before.len() == start.len() + 128 * b,
                    out@.subrange(0, before.len() as int) == before,
                    out@.subrange(0, start.len() as int) == start,
                    forall|k: int| 0 <= k < BLOCK_SIZE ==> #[trigger] block@[k] == block_value(tail@, k),
                    tail@ == block_bytes(bb, b as nat),
                    forall|j: int|
                        0 <= j < 128 * b + i ==> out@[start.len()
                            + j] == #[trigger] decoded_at(kind, bb, nn, j),
                    kind == Kind::Sorted && 128 * b + i > 0 ==> prev == decoded_at(kind, bb, nn, 128 * b + i - 1),
                    128 * b + i == 0 ==> prev == u32::MAX,
                decreases BLOCK_SIZE - i,
            {
                let ghost j = 128 * b + i;
                let ghost prev0 = prev;
                proof {
                    lemma_block_index(b as int, i as int);
                    assert(j < (nn / 128) * 128) by (nonlinear_arith)
                        requires
                            j == 128 * b + i,
                            i < 128,
                            b < nn / 128,
                    ;
                    assert(block@[i as int] == stored_at(bb, nn, j));
                }
                let d = block[i];
                let ghost mid = out@;
                if kind == Kind::Sorted {
                    prev = prev.wrapping_add(d);
                    push_keep(out, prev);
                } else {
                    push_keep(out, d);
                }
                proof {
                    assert(out@.subrange(0, before.len() as int) =~= before);
                    assert(out@.subrange(0, start.len() as int) =~= start);
                    assert forall|jj: int|
                        0 <= jj < j + 1 implies out@[start.len()
                        + jj] == #[trigger] decoded_at(kind, bb, nn, jj) by {
                        if jj < j {
                            assert(out@[start.len() + jj] == mid[start.len() + jj]);
                        }
                    }
                }
                i = i + 1;
            }
            proof {
                assert(out@.subrange(0, start.len() as int) =~= before.subrange(
                    0,
                    start.len() as int,
                ));
                assert(128 * (b + 1) == 128 * b + 128);
            }
            b = b + 1;
        }
        let rest = n % BLOCK_SIZE;
        let ghost p_tail = r.pos as int;
        assert(p_tail == block_pos(bb, nn / 128));
        let mut i: usize = 0;
        while i < rest
            invariant
                rest == n % 128,
                n_full == n / 128,
                nn == n,
                bb == buf@,
                i <= rest,
                r.buf@ == buf@,
                p_tail == block_pos(bb, nn / 128),
                r.pos == vint_pos(bb, p_tail, i as nat),
                out@.len() == start.len() + 128 * n_full + i,
                out@.subrange(0, start.len() as int) == start,
                forall|j: int|
                    0 <= j < 128 * n_full + i ==> out@[start.len()
                        + j] == #[trigger] decoded_at(kind, bb, nn, j),
                kind == Kind::Sorted && 128 * n_full + i > 0 ==> prev == decoded_at(kind, bb, nn, 128 * n_full + i - 1),
                128 * n_full + i == 0 ==> prev == u32::MAX,
            decreases rest - i,
        {
            let ghost j = 128 * n_full + i;
            let ghost mid = out@;
            let d = r.read_vint();
            proof {
                assert(j >= (nn / 128) * 128);
                assert(d == stored_at(bb, nn, j));
            }
            if kind == Kind::Sorted {
                prev = prev.wrapping_add(d);
                push_keep(out, prev);
            } else {
                push_keep(out, d);
            }
            proof {
                assert(out@.subrange(0, start.len() as int) =~= mid.subrange(
                    0,
                    start.len() as int,
                ));
                assert forall|jj: int|
                    0 <= jj < j + 1 implies out@[start.len() + jj]
                    == #[trigger] decoded_at(kind, bb, nn, jj) by {
                    if jj < j {
                        assert(out@[start.len() + jj] == mid[start.len() + jj]);
                    }
                }
            }
            i = i + 1;
        }
        assert(128 * n_full + rest == n);
        assert(out@ =~= start + self.decoding(kind, universe, n as nat, buf@));
    }

    fn aux_bytes(&self, universe: u32, n: usize, buf: &[u8]) -> (r: Option<usize>)
        ensures
            r is None,
    {
        None
    }

    fn cursor<'a>(&self, universe: u32, n: usize, buf: &'a [u8]) -> (r: Option<
        Box<dyn Cursor + 'a>,
    >) {
        None
    }

    fn get(&self, kind: Kind, universe: u32, n: usize, buf: &[u8], i: usize) -> (r: Option<u32>) {
        None
    }

    fn open<'a>(&self, kind: Kind, universe: u32, n: usize, buf: &'a [u8]) -> (r: Option<
        Box<dyn Prepared + 'a>,
    >) {
        None
    }
}

} // verus!
