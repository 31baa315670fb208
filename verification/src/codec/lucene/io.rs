//! Lucene `DataInput` / `DataOutput` primitives used by the 10.3.1 postings
//! format: little-endian int/long, vint/vlong, vint15/vlong15, group-varint.

use vstd::prelude::*;

use crate::bytes::{
    get_u32_le, get_u64_le, lemma_u32_roundtrip, lemma_u64_roundtrip, le_u32, le_u64, push_u32_le,
    push_u64_le, u16_at, u32_at, u64_at,
};
use crate::leb128::{
    is_varint, lemma_vint_bytes_shape, lemma_vint_roundtrip, lemma_vlong_bytes_shape,
    lemma_vlong_roundtrip, vint_bytes, vint_value, vints, vlong_bytes, vlong_value,
};

verus! {

/// The byte a read at `p` sees: the buffer's byte, or zero past the end.
pub open spec fn byte_at(buf: Seq<u8>, p: int) -> u8 {
    if 0 <= p < buf.len() {
        buf[p]
    } else {
        0
    }
}

/// The bytes a run of `k` reads from `p` sees.
pub open spec fn stream(buf: Seq<u8>, p: int, k: int) -> Seq<u8> {
    Seq::new(k as nat, |j: int| byte_at(buf, p + j))
}

/// Bytes a varint read from `p` takes: up to the first byte below `0x80`,
/// at most `limit`.
pub open spec fn stream_varint_len(buf: Seq<u8>, p: int, j: int, limit: int) -> int
    decreases limit - j,
{
    if j >= limit {
        limit
    } else if byte_at(buf, p + j) < 0x80 {
        j + 1
    } else {
        stream_varint_len(buf, p, j + 1, limit)
    }
}

/// Where the read position ends after `k` byte reads from `p`: each read
/// inside the buffer advances by one, a read at or past the end pins the
/// position at the end.
pub open spec fn pos_after(p: int, k: int, len: int) -> int {
    if k <= 0 {
        p
    } else if p + k <= len {
        p + k
    } else {
        len
    }
}

/// Where a fixed-width read of `w` bytes at `p` leaves the position: `w`
/// further when all `w` bytes are there, pinned at the end of the buffer
/// otherwise (also when `p` was already past it).
pub open spec fn fixed_read_pos(p: int, w: int, len: int) -> int {
    if p + w > len {
        len
    } else {
        p + w
    }
}

/// The short a `read_u16_le` at `p` returns: zero when fewer than two bytes remain.
pub open spec fn short_at(buf: Seq<u8>, p: int) -> u16 {
    if p + 2 <= buf.len() {
        u16_at(buf, p)
    } else {
        0
    }
}

/// What `read_vint15` at `p` returns, with the position it leaves.
pub open spec fn vint15_read(buf: Seq<u8>, p: int) -> (u32, int) {
    let s = short_at(buf, p);
    let p1 = fixed_read_pos(p, 2, buf.len() as int);
    if s < 0x8000 {
        (s as u32, p1)
    } else {
        let k = stream_varint_len(buf, p1, 0, 5);
        (
            ((s & 0x7fff) as u32) | (vint_value(stream(buf, p1, k)) << 15u32),
            pos_after(p1, k, buf.len() as int),
        )
    }
}

/// What `read_vlong15` at `p` returns, with the position it leaves.
pub open spec fn vlong15_read(buf: Seq<u8>, p: int) -> (u64, int) {
    let s = short_at(buf, p);
    let p1 = fixed_read_pos(p, 2, buf.len() as int);
    if s < 0x8000 {
        (s as u64, p1)
    } else {
        let k = stream_varint_len(buf, p1, 0, 10);
        (
            ((s & 0x7fff) as u64) | (vlong_value(stream(buf, p1, k)) << 15u64),
            pos_after(p1, k, buf.len() as int),
        )
    }
}

/// The four bytes a group int of `w` bytes read at `p` assembles: those `w`
/// stream bytes, then zeros.
pub open spec fn group_int_bytes(buf: Seq<u8>, p: int, w: int) -> Seq<u8> {
    Seq::new(4, |j: int| if j < w { byte_at(buf, p + j) } else { 0u8 })
}

/// A group int of `w` bytes read at `p`: its value and the position after it.
pub open spec fn group_int_read(buf: Seq<u8>, p: int, w: int) -> (u32, int) {
    (u32_at(group_int_bytes(buf, p, w), 0), pos_after(p, w, buf.len() as int))
}

/// Values and end position of `n` vint reads from `p`.
pub open spec fn vint_reads(buf: Seq<u8>, p: int, n: nat) -> (Seq<u32>, int)
    decreases n,
{
    if n == 0 {
        (Seq::empty(), p)
    } else {
        let k = stream_varint_len(buf, p, 0, 5);
        let rest = vint_reads(buf, pos_after(p, k, buf.len() as int), (n - 1) as nat);
        (seq![vint_value(stream(buf, p, k))] + rest.0, rest.1)
    }
}

/// Values and end position of a group-varint read of `n` ints from `p`:
/// while four remain, a flag byte and four group ints of the widths it
/// gives; then vints.
pub open spec fn group_read(buf: Seq<u8>, p: int, n: nat) -> (Seq<u32>, int)
    decreases n,
{
    if n >= 4 {
        let len = buf.len() as int;
        let flag = byte_at(buf, p);
        let a = group_int_read(buf, pos_after(p, 1, len), ((flag >> 6u8) & 3) + 1);
        let b = group_int_read(buf, a.1, ((flag >> 4u8) & 3) + 1);
        let c = group_int_read(buf, b.1, ((flag >> 2u8) & 3) + 1);
        let d = group_int_read(buf, c.1, (flag & 3) + 1);
        let rest = group_read(buf, d.1, (n - 4) as nat);
        (seq![a.0, b.0, c.0, d.0] + rest.0, rest.1)
    } else {
        vint_reads(buf, p, n)
    }
}

/// Cursor over a byte slice. Short reads yield zero and pin `pos` at the
/// end rather than panic: callers pass well-formed Lucene blocks.
pub struct Reader<'a> {
    pub buf: &'a [u8],
    pub pos: usize,
}

impl<'a> Reader<'a> {
    pub fn new(buf: &'a [u8]) -> (r: Self)
        ensures
            r.buf@ == buf@,
            r.pos == 0,
    {
        Reader { buf, pos: 0 }
    }

    pub fn read_byte(&mut self) -> (r: u8)
        ensures
            final(self).buf@ == old(self).buf@,
            r == byte_at(old(self).buf@, old(self).pos as int),
            final(self).pos == pos_after(old(self).pos as int, 1, old(self).buf@.len() as int),
    {
        if self.pos < self.buf.len() {
            let b = self.buf[self.pos];
            self.pos = self.pos + 1;
            b
        } else {
            self.pos = self.buf.len();
            0
        }
    }

    pub fn read_u16_le(&mut self) -> (r: u16)
        ensures
            final(self).buf@ == old(self).buf@,
            r == (if old(self).pos + 2 <= old(self).buf@.len() {
                u16_at(old(self).buf@, old(self).pos as int)
            } else {
                0
            }),
            final(self).pos == fixed_read_pos(
                old(self).pos as int,
                2,
                old(self).buf@.len() as int,
            ),
    {
        let len = self.buf.len();
        if self.pos > len || len - self.pos < 2 {
            self.pos = len;
            return 0;
        }
        let p = self.pos;
        self.pos = p + 2;
        (self.buf[p] as u16) | ((self.buf[p + 1] as u16) << 8u16)
    }

    pub fn read_u32_le(&mut self) -> (r: u32)
        ensures
            final(self).buf@ == old(self).buf@,
            r == (if old(self).pos + 4 <= old(self).buf@.len() {
                u32_at(old(self).buf@, old(self).pos as int)
            } else {
                0
            }),
            final(self).pos == fixed_read_pos(
                old(self).pos as int,
                4,
                old(self).buf@.len() as int,
            ),
    {
        let len = self.buf.len();
        if self.pos > len || len - self.pos < 4 {
            self.pos = len;
            return 0;
        }
        let p = self.pos;
        self.pos = p + 4;
        get_u32_le(self.buf, p)
    }

    pub fn read_u64_le(&mut self) -> (r: u64)
        ensures
            final(self).buf@ == old(self).buf@,
            r == (if old(self).pos + 8 <= old(self).buf@.len() {
                u64_at(old(self).buf@, old(self).pos as int)
            } else {
                0
            }),
            final(self).pos == fixed_read_pos(
                old(self).pos as int,
                8,
                old(self).buf@.len() as int,
            ),
    {
        let len = self.buf.len();
        if self.pos > len || len - self.pos < 8 {
            self.pos = len;
            return 0;
        }
        let p = self.pos;
        self.pos = p + 8;
        get_u64_le(self.buf, p)
    }

    /// A varint of at most five bytes; a sixth is never read.
    pub fn read_vint(&mut self) -> (r: u32)
        ensures
            final(self).buf@ == old(self).buf@,
            ({
                let k = stream_varint_len(old(self).buf@, old(self).pos as int, 0, 5);
                &&& r == vint_value(stream(old(self).buf@, old(self).pos as int, k))
                &&& final(self).pos == pos_after(
                    old(self).pos as int,
                    k,
                    old(self).buf@.len() as int,
                )
            }),
    {
        let ghost p0 = self.pos as int;
        let ghost buf = self.buf@;
        let ghost k = stream_varint_len(buf, p0, 0, 5);
        let mut v = 0u32;
        let mut shift: u32 = 0;
        let ghost mut j: int = 0;
        proof {
            lemma_stream_len(buf, p0, 0, 5);
            assert(stream(buf, p0, 0) =~= Seq::<u8>::empty());
        }
        loop
            invariant
                self.buf@ == buf,
                buf == old(self).buf@,
                p0 == old(self).pos,
                k == stream_varint_len(buf, p0, 0, 5),
                0 <= j < k <= 5,
                stream_varint_len(buf, p0, j, 5) == k,
                shift == 7 * j,
                self.pos == pos_after(p0, j, buf.len() as int),
                v == vint_value(stream(buf, p0, j)),
            decreases 5 - j,
        {
            let b = self.read_byte();
            proof {
                assert(b == byte_at(buf, p0 + j));
                let t = stream(buf, p0, j + 1);
                assert(t.drop_last() =~= stream(buf, p0, j));
                assert(t.last() == b);
            }
            v = v | (((b & 0x7f) as u32) << shift);
            if b < 0x80 {
                return v;
            }
            shift = shift + 7;
            proof {
                j = j + 1;
            }
            if shift >= 32 {
                return v;
            }
            proof {
                lemma_stream_len(buf, p0, j, 5);
            }
        }
    }

    /// A varint of at most ten bytes; an eleventh is never read.
    pub fn read_vlong(&mut self) -> (r: u64)
        ensures
            final(self).buf@ == old(self).buf@,
            ({
                let k = stream_varint_len(old(self).buf@, old(self).pos as int, 0, 10);
                &&& r == vlong_value(stream(old(self).buf@, old(self).pos as int, k))
                &&& final(self).pos == pos_after(
                    old(self).pos as int,
                    k,
                    old(self).buf@.len() as int,
                )
            }),
    {
        let ghost p0 = self.pos as int;
        let ghost buf = self.buf@;
        let ghost k = stream_varint_len(buf, p0, 0, 10);
        let mut v = 0u64;
        let mut shift: u64 = 0;
        let ghost mut j: int = 0;
        proof {
            lemma_stream_len(buf, p0, 0, 10);
            assert(stream(buf, p0, 0) =~= Seq::<u8>::empty());
        }
        loop
            invariant
                self.buf@ == buf,
                buf == old(self).buf@,
                p0 == old(self).pos,
                k == stream_varint_len(buf, p0, 0, 10),
                0 <= j < k <= 10,
                stream_varint_len(buf, p0, j, 10) == k,
                shift == 7 * j,
                self.pos == pos_after(p0, j, buf.len() as int),
                v == vlong_value(stream(buf, p0, j)),
            decreases 10 - j,
        {
            let b = self.read_byte();
            proof {
                assert(b == byte_at(buf, p0 + j));
                let t = stream(buf, p0, j + 1);
                assert(t.drop_last() =~= stream(buf, p0, j));
                assert(t.last() == b);
            }
            v = v | (((b & 0x7f) as u64) << shift);
            if b < 0x80 {
                return v;
            }
            shift = shift + 7;
            proof {
                j = j + 1;
            }
            if shift >= 64 {
                return v;
            }
            proof {
                lemma_stream_len(buf, p0, j, 10);
            }
        }
    }

    /// Little-endian `short`; top bit set means a vint of the rest follows.
    pub fn read_vint15(&mut self) -> (r: u32)
        ensures
            final(self).buf@ == old(self).buf@,
            (r, final(self).pos as int) == vint15_read(old(self).buf@, old(self).pos as int),
    {
        let s = self.read_u16_le();
        if s < 0x8000 {
            s as u32
        } else {
            ((s & 0x7fff) as u32) | (self.read_vint() << 15u32)
        }
    }

    /// Little-endian `short`; top bit set means a vlong of the rest follows.
    pub fn read_vlong15(&mut self) -> (r: u64)
        ensures
            final(self).buf@ == old(self).buf@,
            (r, final(self).pos as int) == vlong15_read(old(self).buf@, old(self).pos as int),
    {
        let s = self.read_u16_le();
        if s < 0x8000 {
            s as u64
        } else {
            ((s & 0x7fff) as u64) | (self.read_vlong() << 15u64)
        }
    }

    /// Groups of four: a flag byte of four two-bit `bytes - 1` widths, then
    /// the ints little-endian at those widths. A tail of fewer than four is vints.
    pub fn read_group_vints(&mut self, dst: &mut [u32])
        ensures
            final(self).buf@ == old(self).buf@,
            (final(dst)@, final(self).pos as int) == group_read(
                old(self).buf@,
                old(self).pos as int,
                old(dst)@.len(),
            ),
    {
        let ghost buf = self.buf@;
        let ghost p0 = self.pos as int;
        let ghost n = dst@.len();
        let mut i: usize = 0;
        assert(dst@.subrange(0, 0) + group_read(buf, p0, n).0 =~= group_read(buf, p0, n).0);
        while dst.len() - i >= 4
            invariant
                self.buf@ == buf,
                buf == old(self).buf@,
                p0 == old(self).pos,
                n == old(dst)@.len(),
                dst@.len() == n,
                i <= n,
                dst@.subrange(0, i as int) + group_read(buf, self.pos as int, (n - i) as nat).0
                    == group_read(buf, p0, n).0,
                group_read(buf, self.pos as int, (n - i) as nat).1 == group_read(buf, p0, n).1,
            decreases n - i,
        {
            let ghost m = (n - i) as nat;
            let ghost g = group_read(buf, self.pos as int, m);
            let ghost rest = group_read(buf, self.pos as int, m).0.skip(4);
            let flag = self.read_byte();
            assert((flag >> 6u8) & 3 < 4 && (flag >> 4u8) & 3 < 4 && (flag >> 2u8) & 3 < 4 && flag
                & 3 < 4) by (bit_vector);
            let a = self.read_group_int((flag >> 6u8) & 3);
            let b = self.read_group_int((flag >> 4u8) & 3);
            let c = self.read_group_int((flag >> 2u8) & 3);
            let d = self.read_group_int(flag & 3);
            proof {
                assert(g.0 =~= seq![a, b, c, d] + group_read(buf, self.pos as int, (m - 4) as nat).0);
            }
            let ghost before = dst@;
            dst[i] = a;
            dst[i + 1] = b;
            dst[i + 2] = c;
            dst[i + 3] = d;
            proof {
                assert(dst@.subrange(0, i + 4) =~= before.subrange(0, i as int) + seq![a, b, c, d]);
                assert(dst@.subrange(0, i + 4) + group_read(buf, self.pos as int, (m - 4) as nat).0
                    =~= before.subrange(0, i as int) + g.0);
            }
            i = i + 4;
        }
        assert(group_read(buf, self.pos as int, (n - i) as nat) == vint_reads(
            buf,
            self.pos as int,
            (n - i) as nat,
        ));
        while i < dst.len()
            invariant
                self.buf@ == buf,
                buf == old(self).buf@,
                p0 == old(self).pos,
                n == old(dst)@.len(),
                dst@.len() == n,
                i <= n,
                dst@.subrange(0, i as int) + vint_reads(buf, self.pos as int, (n - i) as nat).0
                    == group_read(buf, p0, n).0,
                vint_reads(buf, self.pos as int, (n - i) as nat).1 == group_read(buf, p0, n).1,
            decreases n - i,
        {
            let ghost m = (n - i) as nat;
            let ghost g = vint_reads(buf, self.pos as int, m);
            let ghost before = dst@;
            let v = self.read_vint();
            dst[i] = v;
            proof {
                assert(g.0 =~= seq![v] + vint_reads(buf, self.pos as int, (m - 1) as nat).0);
                assert(dst@.subrange(0, i + 1) =~= before.subrange(0, i as int) + seq![v]);
                assert(dst@.subrange(0, i + 1) + vint_reads(buf, self.pos as int, (m - 1) as nat).0
                    =~= before.subrange(0, i as int) + g.0);
            }
            i = i + 1;
        }
        assert(dst@.subrange(0, i as int) =~= dst@);
        assert(vint_reads(buf, self.pos as int, 0).0 =~= Seq::<u32>::empty());
        assert(dst@ + Seq::<u32>::empty() =~= dst@);
    }

    /// One group int of `bytes_minus_1 + 1` little-endian bytes.
    fn read_group_int(&mut self, bytes_minus_1: u8) -> (r: u32)
        requires
            bytes_minus_1 < 4,
        ensures
            final(self).buf@ == old(self).buf@,
            (r, final(self).pos as int) == group_int_read(
                old(self).buf@,
                old(self).pos as int,
                bytes_minus_1 + 1,
            ),
    {
        let ghost buf = self.buf@;
        let ghost p0 = self.pos as int;
        let n: usize = bytes_minus_1 as usize + 1;
        let mut arr: [u8; 4] = [0u8; 4];
        let mut i: usize = 0;
        while i < n
            invariant
                self.buf@ == buf,
                buf == old(self).buf@,
                p0 == old(self).pos,
                n == bytes_minus_1 + 1,
                n <= 4,
                i <= n,
                self.pos == pos_after(p0, i as int, buf.len() as int),
                forall|j: int| 0 <= j < 4 ==> #[trigger] arr@[j] == (if j < i {
                    byte_at(buf, p0 + j)
                } else {
                    0u8
                }),
            decreases n - i,
        {
            let b = self.read_byte();
            arr[i] = b;
            i = i + 1;
        }
        assert(arr@ =~= group_int_bytes(buf, p0, n as int));
        (arr[0] as u32) | ((arr[1] as u32) << 8u32) | ((arr[2] as u32) << 16u32) | ((arr[3] as u32)
            << 24u32)
    }

    /// Advance `pos` by `n` bytes, pinning at the end.
    pub fn skip(&mut self, n: usize)
        ensures
            final(self).buf@ == old(self).buf@,
            final(self).pos == (if old(self).pos + n >= old(self).buf@.len() {
                old(self).buf@.len() as int
            } else {
                old(self).pos + n
            }),
    {
        let len = self.buf.len();
        let p = self.pos.saturating_add(n);
        self.pos = if p < len {
            p
        } else {
            len
        };
    }
}

/// `stream_varint_len` stays within `(j, limit]`, and every byte it passes
/// has the continuation bit.
pub proof fn lemma_stream_len(buf: Seq<u8>, p: int, j: int, limit: int)
    requires
        0 <= j < limit,
    ensures
        j < stream_varint_len(buf, p, j, limit) <= limit,
        forall|i: int|
            j <= i < stream_varint_len(buf, p, j, limit) - 1 ==> #[trigger] byte_at(buf, p + i)
                >= 0x80,
        stream_varint_len(buf, p, j, limit) < limit ==> byte_at(
            buf,
            p + stream_varint_len(buf, p, j, limit) - 1,
        ) < 0x80,
    decreases limit - j,
{
    if byte_at(buf, p + j) >= 0x80 {
        if j + 1 < limit {
            lemma_stream_len(buf, p, j + 1, limit);
        } else {
            assert(stream_varint_len(buf, p, j + 1, limit) == limit);
        }
    }
}

pub fn write_u32_le(out: &mut Vec<u8>, v: u32)
    ensures
        final(out)@ == old(out)@ + le_u32(v),
{
    push_u32_le(out, v);
}

pub fn write_u64_le(out: &mut Vec<u8>, v: u64)
    ensures
        final(out)@ == old(out)@ + le_u64(v),
{
    push_u64_le(out, v);
}

pub fn write_vint(out: &mut Vec<u8>, v: u32)
    ensures
        final(out)@ == old(out)@ + vint_bytes(v),
{
    crate::codec::vbyte::put(v, out);
}

pub fn write_vlong(out: &mut Vec<u8>, v: u64)
    ensures
        final(out)@ == old(out)@ + vlong_bytes(v),
{
    let ghost v0 = v;
    let mut v = v;
    while v >= 0x80
        invariant
            out@ + vlong_bytes(v) == old(out)@ + vlong_bytes(v0),
        decreases v,
    {
        let b = (v as u8) | 0x80;
        assert(b == ((v & 0x7f) | 0x80) as u8) by (bit_vector)
            requires
                b == (v as u8) | 0x80,
        ;
        let ghost before = out@;
        out.push(b);
        proof {
            crate::leb128::lemma_shift7_decreases_u64(v);
        }
        assert(vlong_bytes(v) == seq![b] + vlong_bytes(v >> 7));
        assert(out@ + vlong_bytes(v >> 7) =~= before + vlong_bytes(v));
        v = v >> 7;
    }
    out.push(v as u8);
    assert(vlong_bytes(v) == seq![v as u8]);
}

/// The bytes `write_vlong15` writes: a little-endian short holding the low
/// fifteen bits, with the top bit set when a vlong of the rest follows.
pub open spec fn vlong15_bytes(v: u64) -> Seq<u8> {
    if v & !0x7fffu64 == 0 {
        seq![v as u8, (v >> 8) as u8]
    } else {
        let tagged = (0x8000u16 | ((v as u16) & 0x7fff)) as u16;
        seq![tagged as u8, (tagged >> 8) as u8] + vlong_bytes(v >> 15)
    }
}

pub fn write_vint15(out: &mut Vec<u8>, v: u32)
    ensures
        final(out)@ == old(out)@ + vlong15_bytes(v as u64),
{
    write_vlong15(out, v as u64);
}

pub fn write_vlong15(out: &mut Vec<u8>, v: u64)
    ensures
        final(out)@ == old(out)@ + vlong15_bytes(v),
{
    if v & !0x7fffu64 == 0 {
        let s = v as u16;
        out.push(s as u8);
        out.push((s >> 8u16) as u8);
        proof {
            assert((s >> 8u16) as u8 == (v >> 8) as u8 && s as u8 == v as u8) by (bit_vector)
                requires
                    s == v as u16,
                    v & !0x7fffu64 == 0,
            ;
        }
        assert(final(out)@ =~= old(out)@ + vlong15_bytes(v));
    } else {
        let tagged = 0x8000u16 | ((v as u16) & 0x7fff);
        out.push(tagged as u8);
        out.push((tagged >> 8u16) as u8);
        let ghost mid = out@;
        write_vlong(out, v >> 15);
        assert(final(out)@ =~= old(out)@ + vlong15_bytes(v));
    }
}

/// Bytes a group-varint int of `v` takes: one to four, so that 0 still
/// occupies one byte.
pub open spec fn group_len(v: u32) -> int {
    if v < 0x100 {
        1
    } else if v < 0x1_0000 {
        2
    } else if v < 0x100_0000 {
        3
    } else {
        4
    }
}

/// The flag byte of a group: four two-bit `bytes - 1` widths, first int in
/// the top bits.
pub open spec fn group_flag(a: u32, b: u32, c: u32, d: u32) -> u8 {
    (((group_len(a) - 1) * 64) + ((group_len(b) - 1) * 16) + ((group_len(c) - 1) * 4) + (group_len(
        d,
    ) - 1)) as u8
}

/// One group of four: the flag byte, then each int's low bytes little-endian.
pub open spec fn group4(s: Seq<u32>) -> Seq<u8> {
    seq![group_flag(s[0], s[1], s[2], s[3])] + le_u32(s[0]).subrange(0, group_len(s[0]))
        + le_u32(s[1]).subrange(0, group_len(s[1])) + le_u32(s[2]).subrange(0, group_len(s[2]))
        + le_u32(s[3]).subrange(0, group_len(s[3]))
}

/// Groups of four while four remain, then the tail as plain vints.
pub open spec fn group_vints(s: Seq<u32>) -> Seq<u8>
    decreases s.len(),
{
    if s.len() >= 4 {
        group4(s) + group_vints(s.skip(4))
    } else {
        vints(s)
    }
}

/// The group width from the leading-zero count, as `write_group_vints` computes it.
fn group_bytes(v: u32) -> (r: u8)
    ensures
        r == group_len(v),
{
    let x = v | 1;
    let lz = x.leading_zeros();
    proof {
        vstd::std_specs::bits::axiom_u32_leading_zeros(x);
        assert(x != 0) by (bit_vector)
            requires
                x == v | 1,
        ;
        let t = (32 - lz) as u32;
        let u = (31 - lz) as u32;
        assert(x >> t == 0);
        assert((x >> u) & 1 != 0);
        assert((lz >= 24) == (v < 0x100) && (lz >= 16) == (v < 0x1_0000) && (lz >= 8) == (v
            < 0x100_0000)) by (bit_vector)
            requires
                x == v | 1,
                lz < 32,
                t == 32 - lz,
                u == 31 - lz,
                x >> t == 0,
                (x >> u) & 1 != 0,
        ;
    }
    4 - (lz / 8) as u8
}

fn write_group_int(out: &mut Vec<u8>, v: u32, n: u8)
    requires
        1 <= n <= 4,
    ensures
        final(out)@ == old(out)@ + le_u32(v).subrange(0, n as int),
{
    let bytes: [u8; 4] = [v as u8, (v >> 8) as u8, (v >> 16) as u8, (v >> 24) as u8];
    let mut i: u8 = 0;
    while i < n
        invariant
            i <= n <= 4,
            bytes@ == le_u32(v),
            out@ == old(out)@ + le_u32(v).subrange(0, i as int),
        decreases n - i,
    {
        out.push(bytes[i as usize]);
        assert(out@ =~= old(out)@ + le_u32(v).subrange(0, i + 1));
        i = i + 1;
    }
}

pub fn write_group_vints(out: &mut Vec<u8>, ints: &[u32])
    ensures
        final(out)@ == old(out)@ + group_vints(ints@),
{
    let mut i: usize = 0;
    assert(ints@.skip(0) =~= ints@);
    while ints.len() - i >= 4
        invariant
            i <= ints@.len(),
            out@ + group_vints(ints@.skip(i as int)) == old(out)@ + group_vints(ints@),
        decreases ints@.len() - i,
    {
        let ghost rest = ints@.skip(i as int);
        let n0 = group_bytes(ints[i]) - 1;
        let n1 = group_bytes(ints[i + 1]) - 1;
        let n2 = group_bytes(ints[i + 2]) - 1;
        let n3 = group_bytes(ints[i + 3]) - 1;
        let flag = (n0 << 6u8) | (n1 << 4u8) | (n2 << 2u8) | n3;
        proof {
            assert(flag == (n0 * 64 + n1 * 16 + n2 * 4 + n3) as u8) by (bit_vector)
                requires
                    n0 < 4,
                    n1 < 4,
                    n2 < 4,
                    n3 < 4,
                    flag == (n0 << 6u8) | (n1 << 4u8) | (n2 << 2u8) | n3,
            ;
            assert(rest[0] == ints@[i as int] && rest[1] == ints@[i + 1] && rest[2] == ints@[i
                + 2] && rest[3] == ints@[i + 3]);
        }
        let ghost before = out@;
        out.push(flag);
        write_group_int(out, ints[i], n0 + 1);
        write_group_int(out, ints[i + 1], n1 + 1);
        write_group_int(out, ints[i + 2], n2 + 1);
        write_group_int(out, ints[i + 3], n3 + 1);
        proof {
            assert(out@ =~= before + group4(rest));
            assert(rest.skip(4) =~= ints@.skip(i + 4));
            assert(group_vints(rest) == group4(rest) + group_vints(rest.skip(4)));
        }
        i = i + 4;
    }
    let ghost tail = ints@.skip(i as int);
    let ghost mid = out@;
    assert(group_vints(tail) == vints(tail));
    assert(tail.subrange(0, 0) =~= Seq::<u32>::empty());
    let mut j: usize = i;
    while j < ints.len()
        invariant
            i <= j <= ints@.len(),
            tail == ints@.skip(i as int),
            mid + vints(tail) == old(out)@ + group_vints(ints@),
            out@ == mid + vints(tail.subrange(0, j - i)),
        decreases ints@.len() - j,
    {
        proof {
            assert(tail.subrange(0, j - i + 1).drop_last() =~= tail.subrange(0, j - i));
            assert(tail[j - i] == ints@[j as int]);
        }
        write_vint(out, ints[j]);
        j = j + 1;
    }
    assert(tail.subrange(0, j - i) =~= tail);
}

/// A complete varint at `p` is exactly what a varint read from `p` consumes.
proof fn lemma_stream_of_varint(buf: Seq<u8>, p: int, w: Seq<u8>, limit: int, j: int)
    requires
        0 <= p,
        p + w.len() <= buf.len(),
        buf.subrange(p, p + w.len()) == w,
        is_varint(w),
        w.len() <= limit,
        0 <= j < w.len(),
    ensures
        stream_varint_len(buf, p, j, limit) == w.len(),
        stream(buf, p, w.len() as int) == w,
    decreases w.len() - j,
{
    assert(buf[p + j] == w[j]);
    if j < w.len() - 1 {
        lemma_stream_of_varint(buf, p, w, limit, j + 1);
    }
    assert forall|i: int| 0 <= i < w.len() implies #[trigger] stream(buf, p, w.len() as int)[i]
        == w[i] by {
        assert(buf[p + i] == w[i]);
    }
    assert(stream(buf, p, w.len() as int) =~= w);
}

/// Reading a vint where `write_vint` put it gives the value back and stops
/// just past its bytes, whatever surrounds them.
pub proof fn lemma_vint_read_written(pre: Seq<u8>, v: u32, post: Seq<u8>)
    ensures
        ({
            let buf = pre + vint_bytes(v) + post;
            let p = pre.len() as int;
            let k = stream_varint_len(buf, p, 0, 5);
            &&& k == vint_bytes(v).len()
            &&& vint_value(stream(buf, p, k)) == v
            &&& pos_after(p, k, buf.len() as int) == p + k
        }),
{
    let w = vint_bytes(v);
    let buf = pre + w + post;
    let p = pre.len() as int;
    lemma_vint_bytes_shape(v);
    assert(buf.subrange(p, p + w.len()) =~= w);
    lemma_stream_of_varint(buf, p, w, 5, 0);
    lemma_vint_roundtrip(v);
}

/// Reading a vlong where `write_vlong` put it gives the value back and stops
/// just past its bytes, whatever surrounds them.
pub proof fn lemma_vlong_read_written(pre: Seq<u8>, v: u64, post: Seq<u8>)
    ensures
        ({
            let buf = pre + vlong_bytes(v) + post;
            let p = pre.len() as int;
            let k = stream_varint_len(buf, p, 0, 10);
            &&& k == vlong_bytes(v).len()
            &&& vlong_value(stream(buf, p, k)) == v
            &&& pos_after(p, k, buf.len() as int) == p + k
        }),
{
    let w = vlong_bytes(v);
    let buf = pre + w + post;
    let p = pre.len() as int;
    lemma_vlong_bytes_shape(v);
    lemma_vlong_roundtrip(v);
    assert(buf.subrange(p, p + w.len()) =~= w);
    lemma_stream_of_varint(buf, p, w, 10, 0);
}

/// Reading an int where `write_u32_le` put it gives it back and moves four bytes.
pub proof fn lemma_u32_read_written(pre: Seq<u8>, v: u32, post: Seq<u8>)
    ensures
        ({
            let buf = pre + le_u32(v) + post;
            let p = pre.len() as int;
            &&& p + 4 <= buf.len()
            &&& u32_at(buf, p) == v
            &&& fixed_read_pos(p, 4, buf.len() as int) == p + 4
        }),
{
    let buf = pre + le_u32(v) + post;
    let p = pre.len() as int;
    assert(buf.subrange(p, p + 4) =~= le_u32(v));
    lemma_u32_roundtrip(v, buf, p);
}

/// Reading a long where `write_u64_le` put it gives it back and moves eight bytes.
pub proof fn lemma_u64_read_written(pre: Seq<u8>, v: u64, post: Seq<u8>)
    ensures
        ({
            let buf = pre + le_u64(v) + post;
            let p = pre.len() as int;
            &&& p + 8 <= buf.len()
            &&& u64_at(buf, p) == v
            &&& fixed_read_pos(p, 8, buf.len() as int) == p + 8
        }),
{
    let buf = pre + le_u64(v) + post;
    let p = pre.len() as int;
    assert(buf.subrange(p, p + 8) =~= le_u64(v));
    lemma_u64_roundtrip(v, buf, p);
}

/// A vlong of a value that fits in 32 bits has the same bytes as its vint.
proof fn lemma_vlong_bytes_of_u32(x: u64)
    requires
        x <= u32::MAX,
    ensures
        vlong_bytes(x) == vint_bytes(x as u32),
    decreases x,
{
    let y = x as u32;
    assert((x as u32) as u8 == x as u8 && ((x as u32) >> 7) as u64 == x >> 7 && x >> 7 <= u32::MAX
        && (((x as u32) & 0x7f) | 0x80) as u8 == ((x & 0x7f) | 0x80) as u8) by (bit_vector)
        requires
            x <= u32::MAX,
    ;
    if x >= 0x80 {
        crate::leb128::lemma_shift7_decreases_u64(x);
        lemma_vlong_bytes_of_u32(x >> 7);
        assert((x >> 7) as u32 == y >> 7);
    }
}

/// The two bytes of a short, read back little-endian.
proof fn lemma_short_read_written(pre: Seq<u8>, t: u16, post: Seq<u8>)
    ensures
        ({
            let buf = pre + seq![t as u8, (t >> 8u16) as u8] + post;
            let p = pre.len() as int;
            &&& short_at(buf, p) == t
            &&& fixed_read_pos(p, 2, buf.len() as int) == p + 2
        }),
{
    let buf = pre + seq![t as u8, (t >> 8u16) as u8] + post;
    let p = pre.len() as int;
    assert(buf[p] == t as u8 && buf[p + 1] == (t >> 8u16) as u8);
    let b0 = t as u8;
    let b1 = (t >> 8u16) as u8;
    assert((b0 as u16) | ((b1 as u16) << 8u16) == t) by (bit_vector)
        requires
            b0 == t as u8,
            b1 == (t >> 8u16) as u8,
    ;
}

/// Reading a vlong15 where `write_vlong15` put it gives the value back and
/// stops just past its bytes.
pub proof fn lemma_vlong15_read_written(pre: Seq<u8>, v: u64, post: Seq<u8>)
    ensures
        vlong15_read(pre + vlong15_bytes(v) + post, pre.len() as int) == (
            v,
            pre.len() + vlong15_bytes(v).len() as int,
        ),
{
    let p = pre.len() as int;
    if v & !0x7fffu64 == 0 {
        let t = v as u16;
        assert(v as u8 == t as u8 && (v >> 8) as u8 == (t >> 8u16) as u8 && t < 0x8000 && t as u64
            == v) by (bit_vector)
            requires
                t == v as u16,
                v & !0x7fffu64 == 0,
        ;
        assert(vlong15_bytes(v) =~= seq![t as u8, (t >> 8u16) as u8]);
        lemma_short_read_written(pre, t, post);
    } else {
        let t = (0x8000u16 | ((v as u16) & 0x7fff)) as u16;
        let head = seq![t as u8, (t >> 8u16) as u8];
        let w = v >> 15;
        assert(vlong15_bytes(v) == head + vlong_bytes(w));
        let buf = pre + vlong15_bytes(v) + post;
        assert(buf =~= pre + head + (vlong_bytes(w) + post));
        lemma_short_read_written(pre, t, vlong_bytes(w) + post);
        assert(buf =~= (pre + head) + vlong_bytes(w) + post);
        lemma_vlong_read_written(pre + head, w, post);
        assert(t >= 0x8000 && ((t & 0x7fff) as u64) | (w << 15u64) == v) by (bit_vector)
            requires
                t == (0x8000u16 | ((v as u16) & 0x7fff)) as u16,
                w == v >> 15,
        ;
    }
}

/// Reading a vint15 where `write_vint15` put it gives the value back and
/// stops just past its bytes.
pub proof fn lemma_vint15_read_written(pre: Seq<u8>, v: u32, post: Seq<u8>)
    ensures
        vint15_read(pre + vlong15_bytes(v as u64) + post, pre.len() as int) == (
            v,
            pre.len() + vlong15_bytes(v as u64).len() as int,
        ),
{
    let p = pre.len() as int;
    let x = v as u64;
    if x & !0x7fffu64 == 0 {
        let t = x as u16;
        assert(x as u8 == t as u8 && (x >> 8) as u8 == (t >> 8u16) as u8 && t < 0x8000 && t as u32
            == v) by (bit_vector)
            requires
                t == x as u16,
                x == v as u64,
                x & !0x7fffu64 == 0,
        ;
        assert(vlong15_bytes(x) =~= seq![t as u8, (t >> 8u16) as u8]);
        lemma_short_read_written(pre, t, post);
    } else {
        let t = (0x8000u16 | ((x as u16) & 0x7fff)) as u16;
        let head = seq![t as u8, (t >> 8u16) as u8];
        let w = x >> 15;
        let wi = w as u32;
        assert(w <= u32::MAX && t >= 0x8000 && ((t & 0x7fff) as u32) | (wi << 15u32) == v)
            by (bit_vector)
            requires
                t == (0x8000u16 | ((x as u16) & 0x7fff)) as u16,
                x == v as u64,
                w == x >> 15,
                wi == w as u32,
        ;
        lemma_vlong_bytes_of_u32(w);
        assert(vlong15_bytes(x) == head + vint_bytes(wi));
        let buf = pre + vlong15_bytes(x) + post;
        assert(buf =~= pre + head + (vint_bytes(wi) + post));
        lemma_short_read_written(pre, t, vint_bytes(wi) + post);
        assert(buf =~= (pre + head) + vint_bytes(wi) + post);
        lemma_vint_read_written(pre + head, wi, post);
    }
}

/// `vints` read from the front: the first value's bytes, then the rest.
proof fn lemma_vints_front(s: Seq<u32>)
    requires
        s.len() > 0,
    ensures
        vints(s) == vint_bytes(s[0]) + vints(s.drop_first()),
    decreases s.len(),
{
    if s.len() > 1 {
        let t = s.drop_last();
        lemma_vints_front(t);
        assert(t.drop_first() =~= s.drop_first().drop_last());
        assert(s.drop_first().last() == s.last());
        assert(vints(s.drop_first()) == vints(s.drop_first().drop_last()) + vint_bytes(s.last()));
    } else {
        assert(s.drop_first() =~= Seq::<u32>::empty());
        assert(s.drop_last() =~= Seq::<u32>::empty());
    }
}

/// Reading `s.len()` vints where they were written gives `s` back.
proof fn lemma_vint_reads_written(pre: Seq<u8>, s: Seq<u32>, post: Seq<u8>)
    ensures
        vint_reads(pre + vints(s) + post, pre.len() as int, s.len()) == (
            s,
            pre.len() + vints(s).len() as int,
        ),
    decreases s.len(),
{
    if s.len() == 0 {
        assert(s =~= Seq::<u32>::empty());
    } else {
        lemma_vints_front(s);
        let w = vint_bytes(s[0]);
        let t = s.drop_first();
        let buf = pre + vints(s) + post;
        assert(buf =~= pre + w + (vints(t) + post));
        lemma_vint_read_written(pre, s[0], vints(t) + post);
        assert(buf =~= (pre + w) + vints(t) + post);
        lemma_vint_reads_written(pre + w, t, post);
        assert(seq![s[0]] + t =~= s);
    }
}

/// A group int written at its group width reads back as itself.
proof fn lemma_group_int_read_written(pre: Seq<u8>, v: u32, post: Seq<u8>)
    ensures
        group_int_read(
            pre + le_u32(v).subrange(0, group_len(v)) + post,
            pre.len() as int,
            group_len(v),
        ) == (v, pre.len() + group_len(v)),
{
    let w = group_len(v);
    let buf = pre + le_u32(v).subrange(0, w) + post;
    let p = pre.len() as int;
    assert((v < 0x100 ==> (v >> 8) as u8 == 0 && (v >> 16) as u8 == 0 && (v >> 24) as u8 == 0) && (
    v < 0x1_0000 ==> (v >> 16) as u8 == 0 && (v >> 24) as u8 == 0) && (v < 0x100_0000 ==> (v
        >> 24) as u8 == 0)) by (bit_vector);
    assert forall|j: int| 0 <= j < 4 implies #[trigger] group_int_bytes(buf, p, w)[j] == le_u32(
        v,
    )[j] by {
        if j < w {
            assert(buf[p + j] == le_u32(v)[j]);
        }
    }
    assert(group_int_bytes(buf, p, w) =~= le_u32(v));
    assert(le_u32(v).subrange(0, 4) =~= le_u32(v));
    lemma_u32_roundtrip(v, le_u32(v), 0);
}

/// One group of four read where it was written: the flag byte's widths
/// are the ints' group widths, and the four ints come back.
#[verifier::spinoff_prover]
#[verifier::rlimit(40)]
proof fn lemma_group4_read_written(pre: Seq<u8>, s: Seq<u32>, rest: Seq<u8>)
    requires
        s.len() >= 4,
    ensures
        ({
            let buf = pre + group4(s) + rest;
            let len = buf.len() as int;
            let p = pre.len() as int;
            let flag = byte_at(buf, p);
            let a = group_int_read(buf, pos_after(p, 1, len), ((flag >> 6u8) & 3) + 1);
            let b = group_int_read(buf, a.1, ((flag >> 4u8) & 3) + 1);
            let c = group_int_read(buf, b.1, ((flag >> 2u8) & 3) + 1);
            let d = group_int_read(buf, c.1, (flag & 3) + 1);
            &&& a.0 == s[0]
            &&& b.0 == s[1]
            &&& c.0 == s[2]
            &&& d.0 == s[3]
            &&& d.1 == p + group4(s).len()
        }),
{
    let buf = pre + group4(s) + rest;
    let p = pre.len() as int;
    let flag = group_flag(s[0], s[1], s[2], s[3]);
    let x0 = (group_len(s[0]) - 1) as u8;
    let x1 = (group_len(s[1]) - 1) as u8;
    let x2 = (group_len(s[2]) - 1) as u8;
    let x3 = (group_len(s[3]) - 1) as u8;
    assert(flag == (x0 * 64 + x1 * 16 + x2 * 4 + x3) as u8);
    assert((flag >> 6u8) & 3 == x0 && (flag >> 4u8) & 3 == x1 && (flag >> 2u8) & 3 == x2 && flag
        & 3 == x3) by (bit_vector)
        requires
            x0 < 4,
            x1 < 4,
            x2 < 4,
            x3 < 4,
            flag == (x0 * 64 + x1 * 16 + x2 * 4 + x3) as u8,
    ;
    let e0 = le_u32(s[0]).subrange(0, group_len(s[0]));
    let e1 = le_u32(s[1]).subrange(0, group_len(s[1]));
    let e2 = le_u32(s[2]).subrange(0, group_len(s[2]));
    let e3 = le_u32(s[3]).subrange(0, group_len(s[3]));
    assert(buf[p] == flag);
    let q0 = pre + seq![flag];
    let q1 = q0 + e0;
    let q2 = q1 + e1;
    let q3 = q2 + e2;
    assert(buf =~= q0 + e0 + (e1 + e2 + e3 + rest));
    lemma_group_int_read_written(q0, s[0], e1 + e2 + e3 + rest);
    assert(buf =~= q1 + e1 + (e2 + e3 + rest));
    lemma_group_int_read_written(q1, s[1], e2 + e3 + rest);
    assert(buf =~= q2 + e2 + (e3 + rest));
    lemma_group_int_read_written(q2, s[2], e3 + rest);
    assert(buf =~= q3 + e3 + rest);
    lemma_group_int_read_written(q3, s[3], rest);
}

/// Reading `s.len()` ints group-varint style where `write_group_vints` put
/// them gives `s` back and stops just past their bytes.
#[verifier::rlimit(40)]
#[verifier::spinoff_prover]
pub proof fn lemma_group_read_written(pre: Seq<u8>, s: Seq<u32>, post: Seq<u8>)
    ensures
        group_read(pre + group_vints(s) + post, pre.len() as int, s.len()) == (
            s,
            pre.len() + group_vints(s).len() as int,
        ),
    decreases s.len(),
{
    if s.len() < 4 {
        lemma_vint_reads_written(pre, s, post);
    } else {
        let t = s.skip(4);
        let buf = pre + group_vints(s) + post;
        assert(group_vints(s) == group4(s) + group_vints(t));
        assert(buf =~= pre + group4(s) + (group_vints(t) + post));
        lemma_group4_read_written(pre, s, group_vints(t) + post);
        let q = pre + group4(s);
        assert(buf =~= q + group_vints(t) + post);
        lemma_group_read_written(q, t, post);
        assert(seq![s[0], s[1], s[2], s[3]] + t =~= s);
    }
}

} // verus!
