//! Control codec: 32 bits per value, no compression. Every other codec's
//! ratio and speed is read against this.

use vstd::prelude::*;
use vstd::string::StringSliceAdditionalSpecFns;

use crate::bytes::{get_u32_le, lemma_u32_roundtrip, lemma_words_le, push_u32_le, u32_at, words_le};
use crate::codec::{
    advance, at, first_geq, lemma_first_geq_is, seek_start, Caps, Codec, Cursor, Prepared,
};
use crate::stream::{strictly_increasing, Kind};

verus! {

/// The values stored little-endian in the first `4 n` bytes.
pub open spec fn raw_values(n: nat, buf: Seq<u8>) -> Seq<u32> {
    Seq::new(n, |i: int| u32_at(buf, 4 * i))
}

/// Reading the bytes of a list back gives the list.
pub proof fn lemma_raw_roundtrip(list: Seq<u32>)
    ensures
        4 * list.len() <= words_le(list).len(),
        raw_values(list.len(), words_le(list)) == list,
{
    lemma_words_le(list);
    assert forall|i: int| 0 <= i < list.len() implies #[trigger] raw_values(
        list.len(),
        words_le(list),
    )[i] == list[i] by {
        assert(words_le(list).subrange(4 * i, 4 * i + 4) == crate::bytes::le_u32(list[i]));
        lemma_u32_roundtrip(list[i], words_le(list), 4 * i);
    }
    assert(raw_values(list.len(), words_le(list)) =~= list);
}

pub struct Raw;

impl Codec for Raw {
    open spec fn spec_caps(&self) -> Caps {
        Caps { sorted_only: false, streaming_encoder: true, seek: true, random_access: true }
    }

    open spec fn in_place(&self) -> bool {
        true
    }

    open spec fn encoding(&self, kind: Kind, universe: u32, list: Seq<u32>) -> Seq<u8> {
        words_le(list)
    }

    open spec fn decodable(&self, kind: Kind, universe: u32, n: nat, buf: Seq<u8>) -> bool {
        4 * n <= buf.len()
    }

    open spec fn decoding(&self, kind: Kind, universe: u32, n: nat, buf: Seq<u8>) -> Seq<u32> {
        raw_values(n, buf)
    }

    open spec fn get_any(&self) -> bool {
        false
    }

    open spec fn lossless(&self) -> bool {
        true
    }

    fn is_lossless(&self) -> (r: bool) {
        true
    }

    open spec fn label(&self) -> Seq<u8> {
        "raw-u32".spec_bytes()
    }

    fn name(&self) -> (r: &'static str) {
        "raw-u32"
    }

    fn caps(&self) -> (c: Caps) {
        Caps { sorted_only: false, streaming_encoder: true, seek: true, random_access: true }
    }

    fn encode(&self, kind: Kind, universe: u32, list: &[u32], out: &mut Vec<u8>) {
        let ghost start = out@;
        let mut i: usize = 0;
        while i < list.len()
            invariant
                i <= list@.len(),
                out@ == start + words_le(list@.subrange(0, i as int)),
            decreases list@.len() - i,
        {
            proof {
                assert(list@.subrange(0, i + 1).drop_last() == list@.subrange(0, i as int));
            }
            push_u32_le(out, list[i]);
            i = i + 1;
        }
        proof {
            assert(list@.subrange(0, list@.len() as int) == list@);
            lemma_raw_roundtrip(list@);
        }
    }

    fn decode(&self, kind: Kind, universe: u32, n: usize, buf: &[u8], out: &mut Vec<u32>) {
        let ghost start = out@;
        let blen = buf.len();
        let mut i: usize = 0;
        while i < n
            invariant
                i <= n,
                blen == buf@.len(),
                4 * n <= buf@.len(),
                out@ == start + raw_values(n as nat, buf@).subrange(0, i as int),
            decreases n - i,
        {
            out.push(get_u32_le(buf, i * 4));
            proof {
                assert(out@ =~= start + raw_values(n as nat, buf@).subrange(0, i + 1));
            }
            i = i + 1;
        }
        assert(raw_values(n as nat, buf@).subrange(0, n as int) == raw_values(n as nat, buf@));
    }

    fn aux_bytes(&self, universe: u32, n: usize, buf: &[u8]) -> (r: Option<usize>)
        ensures
            r is None,
    {
        None
    }

    fn cursor<'a>(&self, universe: u32, n: usize, buf: &'a [u8]) -> (r: Option<
        Box<dyn Cursor + 'a>,
    >) {
        let _blen = buf.len();
        let c = RawCursor { buf, n, pos: usize::MAX };
        assert(c.wf());
        let b: Box<dyn Cursor + 'a> = Box::new(c);
        let r = Some(b);
        assert(r.unwrap().wf());
        assert(r.unwrap().values() == self.decoding(Kind::Sorted, universe, n as nat, buf@));
        assert(r.unwrap().index() == -1);
        r
    }

    fn get(&self, kind: Kind, universe: u32, n: usize, buf: &[u8], i: usize) -> (r: Option<u32>) {
        let _blen = buf.len();
        Some(get_u32_le(buf, i * 4))
    }

    fn open<'a>(&self, kind: Kind, universe: u32, n: usize, buf: &'a [u8]) -> (r: Option<
        Box<dyn Prepared + 'a>,
    >) {
        None
    }
}

/// `pos` is the index of the current element; `usize::MAX` is "before the
/// first". Positions stop at `n` once the list is exhausted.
struct RawCursor<'a> {
    buf: &'a [u8],
    n: usize,
    pos: usize,
}

impl<'a> RawCursor<'a> {
    fn at(&self, i: usize) -> (r: u32)
        requires
            i < self.n,
            4 * self.n <= self.buf@.len() <= usize::MAX,
        ensures
            r == raw_values(self.n as nat, self.buf@)[i as int],
    {
        get_u32_le(self.buf, i * 4)
    }

    fn len(&self) -> (r: usize)
        ensures
            r == self.n,
    {
        self.n
    }
}

impl<'a> Cursor for RawCursor<'a> {
    closed spec fn wf(&self) -> bool {
        &&& 4 * self.n <= self.buf@.len() <= usize::MAX
        &&& strictly_increasing(raw_values(self.n as nat, self.buf@))
        &&& (self.pos == usize::MAX || self.pos <= self.n)
    }

    closed spec fn values(&self) -> Seq<u32> {
        raw_values(self.n as nat, self.buf@)
    }

    closed spec fn index(&self) -> int {
        if self.pos == usize::MAX {
            -1
        } else {
            self.pos as int
        }
    }

    /// Binary search from the current position: the natural skip for a
    /// fixed-width layout.
    fn next_geq(&mut self, target: u32) -> (r: Option<u32>) {
        let ghost vals = self.values();
        let ghost from = seek_start(self.index());
        let mut lo = if self.pos == usize::MAX {
            0
        } else {
            self.pos
        };
        let mut hi = self.len();
        assert(strictly_increasing(vals));
        while lo < hi
            invariant
                self.wf(),
                vals == self.values(),
                strictly_increasing(vals),
                vals.len() == self.n,
                0 <= from <= lo <= hi <= self.n,
                from == seek_start(old(self).index()),
                vals == old(self).values(),
                forall|j: int| from <= j < lo ==> vals[j] < target,
                forall|j: int| hi <= j < self.n ==> vals[j] >= target,
            decreases hi - lo,
        {
            let mid = lo + (hi - lo) / 2;
            if self.at(mid) < target {
                assert forall|j: int| from <= j < mid + 1 implies vals[j] < target by {
                    if j < mid {
                        assert(vals[j] < vals[mid as int]);
                    }
                }
                lo = mid + 1;
            } else {
                assert forall|j: int| mid <= j < self.n implies vals[j] >= target by {
                    if j > mid {
                        assert(vals[mid as int] < vals[j]);
                    }
                }
                hi = mid;
            }
        }
        proof {
            lemma_first_geq_is(vals, from, target, lo as int);
        }
        self.pos = lo;
        if lo < self.len() {
            Some(self.at(lo))
        } else {
            None
        }
    }

    fn next(&mut self) -> (r: Option<u32>) {
        if self.pos == usize::MAX {
            self.pos = 0;
        } else if self.pos < self.len() {
            self.pos = self.pos + 1;
        }
        if self.pos < self.len() {
            Some(self.at(self.pos))
        } else {
            None
        }
    }
}

} // verus!
