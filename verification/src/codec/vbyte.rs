//! Reference VByte: 7 payload bits + 1 continuation bit per byte,
//! delta-coded for sorted input (gap minus one, since gaps are at least 1).
//! No skip structure: the cursor is a linear scan, the baseline that skip
//! structures must beat by more than they cost in bytes.

use vstd::prelude::*;
use vstd::string::StringSliceAdditionalSpecFns;

use crate::codec::{
    accepts, advance, at, first_geq, lemma_first_geq_is, seek_start, Caps, Codec, Cursor, Prepared,
};
use crate::leb128::{
    is_varint, lemma_parse_vints_bounds, lemma_parse_vints_mono, lemma_parse_vints_prefix, lemma_parse_vints_roundtrip,
    lemma_varint_len, lemma_vint_bytes_shape, parse_vints, varint_len, varint_len_from, vint_bytes,
    vint_value, vints,
};
use crate::stream::{strictly_increasing, Kind};

verus! {

/// Sorted lists as gaps: the first value as-is, then each value minus its
/// predecessor minus one.
pub open spec fn gaps(list: Seq<u32>) -> Seq<u32> {
    Seq::new(
        list.len(),
        |i: int|
            if i == 0 {
                list[0]
            } else {
                (list[i] - list[i - 1] - 1) as u32
            },
    )
}

/// Inverse of [`gaps`], over the integers: running sum of gaps plus one each.
pub open spec fn undelta(g: Seq<u32>) -> Seq<int>
    decreases g.len(),
{
    if g.len() == 0 {
        Seq::empty()
    } else {
        let u = undelta(g.drop_last());
        u.push(
            if g.len() == 1 {
                g[0] as int
            } else {
                u.last() + g.last() + 1
            },
        )
    }
}

/// Every running sum of the gaps fits a `u32`.
pub open spec fn undelta_fits(g: Seq<u32>) -> bool {
    forall|i: int| 0 <= i < undelta(g).len() ==> #[trigger] undelta(g)[i] <= u32::MAX
}

/// The running sums, as `u32` values.
pub open spec fn undelta_u32(g: Seq<u32>) -> Seq<u32> {
    undelta(g).map_values(|x: int| x as u32)
}

pub proof fn lemma_undelta_len(g: Seq<u32>)
    ensures
        undelta(g).len() == g.len(),
    decreases g.len(),
{
    if g.len() > 0 {
        lemma_undelta_len(g.drop_last());
    }
}

/// The running sums of a prefix are a prefix of the running sums.
pub proof fn lemma_undelta_prefix(g: Seq<u32>, k: int)
    requires
        0 <= k <= g.len(),
    ensures
        undelta(g.subrange(0, k)) == undelta(g).subrange(0, k),
    decreases g.len(),
{
    lemma_undelta_len(g);
    if k < g.len() {
        lemma_undelta_prefix(g.drop_last(), k);
        assert(g.drop_last().subrange(0, k) == g.subrange(0, k));
        lemma_undelta_len(g.drop_last());
        assert(undelta(g).subrange(0, k) == undelta(g.drop_last()).subrange(0, k));
    } else {
        assert(g.subrange(0, k) == g);
    }
}

/// Running sums are never negative.
pub proof fn lemma_undelta_nonneg(g: Seq<u32>)
    ensures
        forall|i: int| 0 <= i < undelta(g).len() ==> #[trigger] undelta(g)[i] >= 0,
    decreases g.len(),
{
    if g.len() > 0 {
        lemma_undelta_nonneg(g.drop_last());
        lemma_undelta_len(g.drop_last());
    }
}

/// One running sum from the previous one.
pub proof fn lemma_undelta_step(g: Seq<u32>, i: int)
    requires
        0 <= i < g.len(),
    ensures
        undelta(g).len() == g.len(),
        i == 0 ==> undelta(g)[i] == g[0] as int,
        i > 0 ==> undelta(g)[i] == undelta(g)[i - 1] + g[i] + 1,
{
    lemma_undelta_len(g);
    lemma_undelta_prefix(g, i + 1);
    let h = g.subrange(0, i + 1);
    assert(undelta(h)[i] == undelta(g)[i]);
    if i == 0 {
        assert(h[0] == g[0]);
        assert(h.len() == 1);
        assert(h.drop_last() =~= Seq::<u32>::empty());
        assert(undelta(h.drop_last()) == Seq::<int>::empty());
        assert(undelta(h) == Seq::<int>::empty().push(h[0] as int));
    }
    if i > 0 {
        assert(h.drop_last() == g.subrange(0, i));
        lemma_undelta_prefix(g, i);
        lemma_undelta_len(g.subrange(0, i));
        assert(undelta(h.drop_last()).last() == undelta(g)[i - 1]);
    }
}

/// Undoing the gaps of a strictly increasing list gives the list back.
pub proof fn lemma_undelta_gaps(list: Seq<u32>)
    requires
        strictly_increasing(list),
    ensures
        undelta(gaps(list)).len() == list.len(),
        forall|i: int| 0 <= i < list.len() ==> #[trigger] undelta(gaps(list))[i] == list[i] as int,
        undelta_fits(gaps(list)),
        undelta_u32(gaps(list)) == list,
    decreases list.len(),
{
    let g = gaps(list);
    lemma_undelta_len(g);
    if list.len() > 0 {
        let t = list.drop_last();
        lemma_undelta_gaps(t);
        assert(gaps(t) == g.drop_last());
        assert forall|i: int| 0 <= i < list.len() implies #[trigger] undelta(g)[i] == list[i] as int by {
            if i < list.len() - 1 {
                assert(undelta(g)[i] == undelta(gaps(t))[i]);
            }
        }
    }
    assert(undelta_u32(g) =~= list);
}

/// Append the varint bytes of `v`.
pub fn put(v: u32, out: &mut Vec<u8>)
    ensures
        final(out)@ == old(out)@ + vint_bytes(v),
{
    let ghost v0 = v;
    let mut v = v;
    while v >= 0x80
        invariant
            out@ + vint_bytes(v) == old(out)@ + vint_bytes(v0),
        decreases v,
    {
        let b = (v as u8) | 0x80;
        assert(b == ((v & 0x7f) | 0x80) as u8) by (bit_vector)
            requires
                b == (v as u8) | 0x80,
        ;
        let ghost before = out@;
        out.push(b);
        assert(v >= 0x80 ==> v >> 7 < v) by (bit_vector);
        assert(vint_bytes(v) == seq![b] + vint_bytes(v >> 7));
        assert(out@ + vint_bytes(v >> 7) =~= before + vint_bytes(v));
        v = v >> 7;
    }
    out.push(v as u8);
    assert(vint_bytes(v) == seq![v as u8]);
}

/// A varint that ends within `limit` bytes is found at its first byte
/// below `0x80`.
pub proof fn lemma_varint_stop(s: Seq<u8>, p: int, limit: int)
    requires
        varint_len(s, p, limit) != 0,
    ensures
        0 < varint_len(s, p, limit) <= limit,
        0 <= p,
        p + varint_len(s, p, limit) <= s.len(),
        forall|j: int|
            0 <= j < varint_len(s, p, limit) ==> (#[trigger] s[p + j] < 0x80 <==> j
                == varint_len(s, p, limit) - 1),
{
    if p < 0 || p > s.len() {
        assert(varint_len_from(s, p, 0, limit) == 0);
    }
    lemma_varint_len(s, p, 0, limit);
    let k = varint_len(s, p, limit);
    let t = s.subrange(p, p + k);
    assert forall|j: int| 0 <= j < k implies (#[trigger] s[p + j] < 0x80 <==> j == k - 1) by {
        assert(t[j] == s[p + j]);
    }
}

/// Read one varint at `*pos`, advancing it past the varint's bytes.
pub fn take(buf: &[u8], pos: &mut usize) -> (r: u32)
    requires
        varint_len(buf@, *old(pos) as int, 5) != 0,
    ensures
        *final(pos) == *old(pos) + varint_len(buf@, *old(pos) as int, 5),
        r == vint_value(
            buf@.subrange(*old(pos) as int, *old(pos) + varint_len(buf@, *old(pos) as int, 5)),
        ),
{
    let ghost p0 = *pos as int;
    let ghost k = varint_len(buf@, p0, 5);
    proof {
        lemma_varint_stop(buf@, p0, 5);
        assert(buf@.subrange(p0, p0) =~= Seq::<u8>::empty());
    }
    let mut v = 0u32;
    let mut shift: u32 = 0;
    loop
        invariant
            p0 == *old(pos),
            p0 <= *pos,
            (*pos - p0) < k,
            k == varint_len(buf@, p0, 5),
            k != 0,
            k <= 5,
            p0 + k <= buf@.len(),
            shift == 7 * (*pos - p0),
            v == vint_value(buf@.subrange(p0, *pos as int)),
        decreases k - (*pos - p0),
    {
        let ghost j = *pos - p0;
        let b = buf[*pos];
        *pos = *pos + 1;
        proof {
            lemma_varint_stop(buf@, p0, 5);
            let t = buf@.subrange(p0, *pos as int);
            assert(t.drop_last() == buf@.subrange(p0, p0 + j));
            assert(t.last() == b);
            assert(buf@[p0 + j] == b);
            assert(b < 0x80 ==> j == k - 1);
        }
        v = v | (((b & 0x7f) as u32) << shift);
        if b < 0x80 {
            return v;
        }
        shift = shift + 7;
    }
}

/// The bytes VByte writes for a list.
pub open spec fn vbyte_encoding(kind: Kind, list: Seq<u32>) -> Seq<u8> {
    match kind {
        Kind::Sorted => vints(gaps(list)),
        Kind::Unsorted => vints(list),
    }
}

/// `n` varints at the start of the buffer, whose running sums fit a `u32`
/// when the list is sorted.
pub open spec fn vbyte_decodable(kind: Kind, n: nat, buf: Seq<u8>) -> bool {
    match parse_vints(buf, n) {
        Some((g, _)) => kind == Kind::Sorted ==> undelta_fits(g),
        None => false,
    }
}

/// The values of the first `n` varints, undone from gaps when sorted.
pub open spec fn vbyte_decoding(kind: Kind, n: nat, buf: Seq<u8>) -> Seq<u32> {
    match parse_vints(buf, n) {
        Some((g, _)) => if kind == Kind::Sorted {
            undelta_u32(g)
        } else {
            g
        },
        None => Seq::empty(),
    }
}

/// Decoding the bytes of a list gives the list back.
pub proof fn lemma_vbyte_roundtrip(kind: Kind, list: Seq<u32>)
    requires
        kind == Kind::Sorted ==> strictly_increasing(list),
    ensures
        vbyte_decodable(kind, list.len(), vbyte_encoding(kind, list)),
        vbyte_decoding(kind, list.len(), vbyte_encoding(kind, list)) == list,
{
    match kind {
        Kind::Sorted => {
            lemma_parse_vints_roundtrip(gaps(list));
            lemma_undelta_gaps(list);
        },
        Kind::Unsorted => {
            lemma_parse_vints_roundtrip(list);
        },
    }
}

proof fn lemma_vbyte_decoding_len(kind: Kind, n: nat, buf: Seq<u8>)
    requires
        vbyte_decodable(kind, n, buf),
    ensures
        vbyte_decoding(kind, n, buf).len() == n,
{
    lemma_parse_vints_bounds(buf, n);
    lemma_undelta_len(parse_vints(buf, n).unwrap().0);
}

/// The gaps of a list's prefix are a prefix of its gaps.
proof fn lemma_gaps_prefix(list: Seq<u32>, i: int)
    requires
        0 <= i <= list.len(),
    ensures
        gaps(list.subrange(0, i)) == gaps(list).subrange(0, i),
{
    assert(gaps(list.subrange(0, i)) =~= gaps(list).subrange(0, i));
}

/// The varints of a prefix extended by one value.
proof fn lemma_vints_push(s: Seq<u32>, i: int)
    requires
        0 <= i < s.len(),
    ensures
        vints(s.subrange(0, i + 1)) == vints(s.subrange(0, i)) + vint_bytes(s[i]),
{
    assert(s.subrange(0, i + 1).drop_last() == s.subrange(0, i));
}

pub struct VByte;

impl Codec for VByte {
    open spec fn spec_caps(&self) -> Caps {
        Caps { sorted_only: false, streaming_encoder: true, seek: true, random_access: false }
    }

    open spec fn in_place(&self) -> bool {
        true
    }

    open spec fn encoding(&self, kind: Kind, universe: u32, list: Seq<u32>) -> Seq<u8> {
        vbyte_encoding(kind, list)
    }

    open spec fn decodable(&self, kind: Kind, universe: u32, n: nat, buf: Seq<u8>) -> bool {
        vbyte_decodable(kind, n, buf)
    }

    open spec fn decoding(&self, kind: Kind, universe: u32, n: nat, buf: Seq<u8>) -> Seq<u32> {
        vbyte_decoding(kind, n, buf)
    }

    open spec fn get_any(&self) -> bool {
        true
    }

    open spec fn lossless(&self) -> bool {
        true
    }

    fn is_lossless(&self) -> (r: bool) {
        true
    }

    open spec fn label(&self) -> Seq<u8> {
        "vbyte".spec_bytes()
    }

    fn name(&self) -> (r: &'static str) {
        "vbyte"
    }

    fn caps(&self) -> (c: Caps) {
        Caps { sorted_only: false, streaming_encoder: true, seek: true, random_access: false }
    }

    fn encode(&self, kind: Kind, universe: u32, list: &[u32], out: &mut Vec<u8>) {
        let ghost start = out@;
        match kind {
            Kind::Sorted => {
                let ghost g = gaps(list@);
                let mut prev = 0u32;
                let mut i: usize = 0;
                while i < list.len()
                    invariant
                        kind == Kind::Sorted,
                        strictly_increasing(list@),
                        i <= list@.len(),
                        g == gaps(list@),
                        i > 0 ==> prev == list@[i - 1],
                        out@ == start + vints(g.subrange(0, i as int)),
                    decreases list@.len() - i,
                {
                    let v = list[i];
                    // First gap is from -1 so that a list starting at 0 costs a zero.
                    let gap = if i == 0 {
                        v
                    } else {
                        assert(list@[i - 1] < list@[i as int]);
                        v - prev - 1
                    };
                    proof {
                        lemma_vints_push(g, i as int);
                    }
                    put(gap, out);
                    prev = v;
                    i = i + 1;
                }
                assert(g.subrange(0, list@.len() as int) == g);
            },
            Kind::Unsorted => {
                let mut i: usize = 0;
                while i < list.len()
                    invariant
                        kind == Kind::Unsorted,
                        i <= list@.len(),
                        out@ == start + vints(list@.subrange(0, i as int)),
                    decreases list@.len() - i,
                {
                    proof {
                        lemma_vints_push(list@, i as int);
                    }
                    put(list[i], out);
                    i = i + 1;
                }
                assert(list@.subrange(0, list@.len() as int) == list@);
            },
        }
        proof {
            lemma_vbyte_roundtrip(kind, list@);
        }
    }

    fn decode(&self, kind: Kind, universe: u32, n: usize, buf: &[u8], out: &mut Vec<u32>) {
        let ghost start = out@;
        let ghost g = parse_vints(buf@, n as nat).unwrap().0;
        proof {
            lemma_parse_vints_bounds(buf@, n as nat);
            lemma_undelta_len(g);
        }
        let mut pos: usize = 0;
        match kind {
            Kind::Sorted => {
                let mut prev = 0u32;
                let mut i: usize = 0;
                while i < n
                    invariant
                        kind == Kind::Sorted,
                        i <= n,
                        vbyte_decodable(kind, n as nat, buf@),
                        g == parse_vints(buf@, n as nat).unwrap().0,
                        g.len() == n,
                        undelta(g).len() == n,
                        pos == parse_vints(buf@, i as nat).unwrap().1,
                        parse_vints(buf@, i as nat) is Some,
                        i > 0 ==> prev == undelta(g)[i - 1],
                        out@ == start + undelta_u32(g).subrange(0, i as int),
                    decreases n - i,
                {
                    proof {
                        lemma_parse_vints_mono(buf@, (i + 1) as nat, n as nat);
                        lemma_parse_vints_mono(buf@, i as nat, n as nat);
                        let gi = parse_vints(buf@, (i + 1) as nat).unwrap().0;
                        assert(gi[i as int] == g[i as int]);
                        assert(undelta(g)[i as int] <= u32::MAX);
                        lemma_undelta_step(g, i as int);
                    }
                    let gap = take(buf, &mut pos);
                    let v = if i == 0 {
                        gap
                    } else {
                        prev + gap + 1
                    };
                    out.push(v);
                    prev = v;
                    proof {
                        assert(out@ =~= start + undelta_u32(g).subrange(0, i + 1));
                    }
                    i = i + 1;
                }
                assert(undelta_u32(g).subrange(0, n as int) == undelta_u32(g));
            },
            Kind::Unsorted => {
                let mut i: usize = 0;
                while i < n
                    invariant
                        kind == Kind::Unsorted,
                        i <= n,
                        parse_vints(buf@, n as nat) is Some,
                        g == parse_vints(buf@, n as nat).unwrap().0,
                        g.len() == n,
                        pos == parse_vints(buf@, i as nat).unwrap().1,
                        parse_vints(buf@, i as nat) is Some,
                        out@ == start + g.subrange(0, i as int),
                    decreases n - i,
                {
                    proof {
                        lemma_parse_vints_mono(buf@, (i + 1) as nat, n as nat);
                        lemma_parse_vints_mono(buf@, i as nat, n as nat);
                    }
                    let v = take(buf, &mut pos);
                    out.push(v);
                    proof {
                        assert(out@ =~= start + g.subrange(0, i + 1));
                    }
                    i = i + 1;
                }
                assert(g.subrange(0, n as int) == g);
            },
        }
    }

    fn aux_bytes(&self, universe: u32, n: usize, buf: &[u8]) -> (r: Option<usize>)
        ensures
            r is None,
    {
        None
    }

    fn cursor<'a>(&self, universe: u32, n: usize, buf: &'a [u8]) -> (r: Option<
        Box<dyn Cursor + 'a>,
    >) {
        let c = VByteCursor {
            buf,
            pos: 0,
            remaining: n,
            current: None,
            n: Ghost(n as nat),
            idx: Ghost(-1),
        };
        proof {
            lemma_vbyte_decoding_len(Kind::Sorted, n as nat, buf@);
        }
        assert(c.wf());
        let b: Box<dyn Cursor + 'a> = Box::new(c);
        let r = Some(b);
        assert(r.unwrap().wf());
        assert(r.unwrap().values() == self.decoding(Kind::Sorted, universe, n as nat, buf@));
        assert(r.unwrap().index() == -1);
        r
    }

    fn get(&self, kind: Kind, universe: u32, n: usize, buf: &[u8], i: usize) -> (r: Option<u32>) {
        None
    }

    fn open<'a>(&self, kind: Kind, universe: u32, n: usize, buf: &'a [u8]) -> (r: Option<
        Box<dyn Prepared + 'a>,
    >) {
        None
    }
}

struct VByteCursor<'a> {
    buf: &'a [u8],
    pos: usize,
    remaining: usize,
    /// `None` before the first element and once exhausted.
    current: Option<u32>,
    n: Ghost<nat>,
    idx: Ghost<int>,
}

impl<'a> Cursor for VByteCursor<'a> {
    closed spec fn wf(&self) -> bool {
        let n = self.n@;
        let idx = self.idx@;
        let vals = vbyte_decoding(Kind::Sorted, n, self.buf@);
        &&& vbyte_decodable(Kind::Sorted, n, self.buf@)
        &&& vals.len() == n
        &&& -1 <= idx <= n
        &&& self.remaining == (if idx == n {
            0
        } else {
            n - 1 - idx
        })
        &&& self.pos == parse_vints(self.buf@, (if idx < n {
            idx + 1
        } else {
            n as int
        }) as nat).unwrap().1
        &&& self.current == at(vals, idx)
    }

    closed spec fn values(&self) -> Seq<u32> {
        vbyte_decoding(Kind::Sorted, self.n@, self.buf@)
    }

    closed spec fn index(&self) -> int {
        self.idx@
    }

    fn next_geq(&mut self, target: u32) -> (r: Option<u32>) {
        match self.current {
            Some(c) => {
                if c >= target {
                    proof {
                        lemma_first_geq_is(self.values(), self.idx@, target, self.idx@);
                    }
                    return Some(c);
                }
            },
            None => {},
        }
        let ghost from = seek_start(self.idx@);
        let ghost vals = self.values();
        loop
            invariant
                self.wf(),
                self.values() == vals,
                vals == old(self).values(),
                from == seek_start(old(self).index()),
                0 <= from <= vals.len(),
                from - 1 <= self.idx@ <= vals.len(),
                forall|j: int| from <= j <= self.idx@ && j < vals.len() ==> vals[j] < target,
            decreases vals.len() - self.idx@,
        {
            match self.next() {
                Some(v) => {
                    if v >= target {
                        proof {
                            lemma_first_geq_is(vals, from, target, self.idx@);
                        }
                        return Some(v);
                    }
                },
                None => {
                    proof {
                        lemma_first_geq_is(vals, from, target, vals.len() as int);
                    }
                    return None;
                },
            }
        }
    }

    fn next(&mut self) -> (r: Option<u32>) {
        let ghost n = self.n@;
        let ghost g = parse_vints(self.buf@, n).unwrap().0;
        if self.remaining == 0 {
            self.current = None;
            self.idx = Ghost(n as int);
            return None;
        }
        proof {
            let i = self.idx@ + 1;
            lemma_parse_vints_bounds(self.buf@, n);
            lemma_undelta_len(g);
            lemma_parse_vints_mono(self.buf@, (i + 1) as nat, n);
            lemma_parse_vints_mono(self.buf@, i as nat, n);
            assert(undelta(g)[i] <= u32::MAX);
            let gi = parse_vints(self.buf@, (i + 1) as nat).unwrap().0;
            assert(gi[i] == g[i]);
        }
        self.remaining = self.remaining - 1;
        let gap = take(self.buf, &mut self.pos);
        let v = match self.current {
            Some(prev) => {
                proof {
                    lemma_undelta_step(g, self.idx@ + 1);
                    lemma_undelta_nonneg(g);
                    assert(prev as int == undelta(g)[self.idx@]);
                }
                prev + gap + 1
            },
            None => {
                proof {
                    lemma_undelta_step(g, 0);
                }
                gap
            },
        };
        self.current = Some(v);
        self.idx = Ghost(self.idx@ + 1);
        Some(v)
    }
}

} // verus!
