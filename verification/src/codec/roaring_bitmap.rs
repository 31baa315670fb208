//! `roaring` crate's `RoaringBitmap`, in the portable on-disk format.
//! `open` deserialises once into an owning `Prepared`; the cursor is a bitmap
//! iterator using the native `advance_to` (first element `>= n`), and `get` is
//! the native `select`. The portable format costs a fixed header (12 bytes for
//! one container) plus 4 bytes of offsets/descriptions per container; that
//! overhead is inherent to the format.

use vstd::prelude::*;
use vstd::string::StringSliceAdditionalSpecFns;

use ::roaring::bitmap::Iter;
use ::roaring::RoaringBitmap;

use super::{at, first_geq, lemma_first_geq_is, seek_start, Caps, Codec, Cursor, Prepared};
use crate::stream::{strictly_increasing, Kind};

verus! {

#[verifier::external_type_specification]
#[verifier::external_body]
pub struct ExRoaringBitmap(::roaring::RoaringBitmap);

#[verifier::external_type_specification]
#[verifier::external_body]
pub struct ExRoaringIter<'a>(::roaring::bitmap::Iter<'a>);

/// The values a bitmap holds, in ascending order.
pub uninterp spec fn rb_values(rb: RoaringBitmap) -> Seq<u32>;

/// The bytes `serialize_into` writes for a bitmap.
pub uninterp spec fn rb_bytes(rb: RoaringBitmap) -> Seq<u8>;

/// What `deserialize_from` reads from some bytes (`None` for an error).
pub uninterp spec fn rb_parsed(buf: Seq<u8>) -> Option<RoaringBitmap>;

/// What `from_sorted_iter` builds from a list (`None` for an error).
pub uninterp spec fn rb_from_sorted(list: Seq<u32>) -> Option<RoaringBitmap>;

/// The values an iterator has still to yield, in order.
pub uninterp spec fn iter_rest(it: Iter<'_>) -> Seq<u32>;

/// How many leading values of `s` are below `n`.
pub open spec fn prefix_below(s: Seq<u32>, n: u32) -> nat
    decreases s.len(),
{
    if s.len() == 0 || s[0] >= n {
        0
    } else {
        1 + prefix_below(s.drop_first(), n)
    }
}

/// `RoaringBitmap::from_sorted_iter` over the list. Claims: a strictly
/// increasing list is accepted and the bitmap holds exactly its values.
#[verifier::external_body]
fn rb_build(list: &[u32]) -> (r: Option<RoaringBitmap>)
    ensures
        r == rb_from_sorted(list@),
        strictly_increasing(list@) ==> r is Some,
        r matches Some(rb) ==> (strictly_increasing(list@) ==> rb_values(rb) == list@),
{
    RoaringBitmap::from_sorted_iter(list.iter().copied()).ok()
}

/// `deserialize_from` reads `buf` back as a bitmap holding what `rb` holds.
pub open spec fn reads_back(buf: Seq<u8>, rb: RoaringBitmap) -> bool {
    rb_parsed(buf) matches Some(d) && rb_values(d) == rb_values(rb)
}

/// `RoaringBitmap::serialize_into` a vector, which cannot fail: appends
/// `rb_bytes(rb)`. Claims, as the crate's own round trip: `deserialize_from`
/// reads those bytes back as a bitmap with the same values.
#[verifier::external_body]
fn rb_serialize(rb: &RoaringBitmap, out: &mut Vec<u8>)
    ensures
        final(out)@ == old(out)@ + rb_bytes(*rb),
        reads_back(final(out)@.skip(old(out)@.len() as int), *rb),
{
    let _ = rb.serialize_into(&mut *out);
}

/// `RoaringBitmap::deserialize_from` a byte slice; its result is named.
#[verifier::external_body]
fn rb_deserialize(buf: &[u8]) -> (r: Option<RoaringBitmap>)
    ensures
        r == rb_parsed(buf@),
{
    RoaringBitmap::deserialize_from(buf).ok()
}

/// `RoaringBitmap::iter`, collected: every value in order.
#[verifier::external_body]
fn rb_collect(rb: &RoaringBitmap) -> (r: Vec<u32>)
    ensures
        r@ == rb_values(*rb),
{
    rb.iter().collect()
}

/// `RoaringBitmap::select`: the `n`-th value, `None` past the end.
#[verifier::external_body]
fn rb_select(rb: &RoaringBitmap, n: u32) -> (r: Option<u32>)
    ensures
        n < rb_values(*rb).len() ==> r == Some(rb_values(*rb)[n as int]),
        n >= rb_values(*rb).len() ==> r is None,
{
    rb.select(n)
}

/// `RoaringBitmap::iter`: an iterator over every value.
#[verifier::external_body]
fn rb_iter<'a>(rb: &'a RoaringBitmap) -> (it: Iter<'a>)
    ensures
        iter_rest(it) == rb_values(*rb),
{
    rb.iter()
}

/// `Iter::advance_to`: drops the leading values below `n`.
#[verifier::external_body]
fn iter_advance_to(it: &mut Iter<'_>, n: u32)
    ensures
        iter_rest(*final(it)) == iter_rest(*old(it)).skip(prefix_below(iter_rest(*old(it)), n) as int),
{
    it.advance_to(n);
}

/// `Iterator::next` on the bitmap iterator: the first remaining value, or
/// `None` once nothing is left.
#[verifier::external_body]
fn iter_next(it: &mut Iter<'_>) -> (r: Option<u32>)
    ensures
        iter_rest(*old(it)).len() == 0 ==> r is None && iter_rest(*final(it)) == iter_rest(*old(it)),
        iter_rest(*old(it)).len() > 0 ==> r == Some(iter_rest(*old(it))[0]) && iter_rest(*final(it))
            == iter_rest(*old(it)).skip(1),
{
    it.next()
}

/// The leading values below `n` are the first `prefix_below` ones.
proof fn lemma_prefix_below(s: Seq<u32>, n: u32)
    ensures
        prefix_below(s, n) <= s.len(),
        forall|m: int| 0 <= m < prefix_below(s, n) ==> #[trigger] s[m] < n,
        prefix_below(s, n) < s.len() ==> s[prefix_below(s, n) as int] >= n,
    decreases s.len(),
{
    if s.len() > 0 && s[0] < n {
        let t = s.drop_first();
        lemma_prefix_below(t, n);
        assert forall|m: int| 0 <= m < prefix_below(s, n) implies #[trigger] s[m] < n by {
            if m > 0 {
                assert(s[m] == t[m - 1]);
            }
        }
        if prefix_below(s, n) < s.len() {
            assert(s[prefix_below(s, n) as int] == t[prefix_below(t, n) as int]);
        }
    }
}

/// Skipping the leading values below `n` from position `from` lands where
/// a seek from `from` does.
proof fn lemma_seek_by_prefix(vals: Seq<u32>, from: int, n: u32)
    requires
        0 <= from <= vals.len(),
    ensures
        from + prefix_below(vals.skip(from), n) == first_geq(vals, from, n),
{
    let rest = vals.skip(from);
    lemma_prefix_below(rest, n);
    let k = from + prefix_below(rest, n);
    assert forall|j: int| from <= j < k implies vals[j] < n by {
        assert(vals[j] == rest[j - from]);
    }
    if k < vals.len() {
        assert(vals[k] == rest[k - from]);
    }
    lemma_first_geq_is(vals, from, n, k);
}

/// A strictly increasing list of `u32` has at most one value per `u32`.
proof fn lemma_increasing_len(s: Seq<u32>)
    requires
        strictly_increasing(s),
    ensures
        s.len() <= 0x1_0000_0000,
{
    assert forall|i: int| 0 <= i < s.len() implies #[trigger] s[i] >= i by {
        lemma_increasing_at_least_index(s, i);
    }
    if s.len() > 0 {
        assert(s[s.len() - 1] >= s.len() - 1);
    }
}

proof fn lemma_increasing_at_least_index(s: Seq<u32>, i: int)
    requires
        strictly_increasing(s),
        0 <= i < s.len(),
    ensures
        s[i] >= i,
    decreases i,
{
    if i > 0 {
        lemma_increasing_at_least_index(s, i - 1);
        assert(s[i - 1] < s[i]);
    }
}

/// A decodable buffer parses as a bitmap of `n` strictly increasing values.
pub open spec fn rb_decodable(n: nat, buf: Seq<u8>) -> bool {
    rb_parsed(buf) matches Some(rb) && rb_values(rb).len() == n && strictly_increasing(
        rb_values(rb),
    )
}

pub struct Roaring;

impl Codec for Roaring {
    open spec fn spec_caps(&self) -> Caps {
        Caps { sorted_only: true, streaming_encoder: true, seek: true, random_access: true }
    }

    open spec fn in_place(&self) -> bool {
        false
    }

    /// The serialised bitmap of the list.
    open spec fn encoding(&self, kind: Kind, universe: u32, list: Seq<u32>) -> Seq<u8> {
        rb_bytes(rb_from_sorted(list)->0)
    }

    open spec fn decodable(&self, kind: Kind, universe: u32, n: nat, buf: Seq<u8>) -> bool {
        rb_decodable(n, buf)
    }

    open spec fn decoding(&self, kind: Kind, universe: u32, n: nat, buf: Seq<u8>) -> Seq<u32> {
        rb_values(rb_parsed(buf)->0)
    }

    open spec fn get_any(&self) -> bool {
        true
    }

    open spec fn lossless(&self) -> bool {
        true
    }

    fn is_lossless(&self) -> (r: bool) {
        true
    }

    open spec fn label(&self) -> Seq<u8> {
        "roaring".spec_bytes()
    }

    fn name(&self) -> (r: &'static str) {
        "roaring"
    }

    fn caps(&self) -> (c: Caps) {
        Caps { sorted_only: true, streaming_encoder: true, seek: true, random_access: true }
    }

    fn encode(&self, kind: Kind, universe: u32, list: &[u32], out: &mut Vec<u8>) {
        let bitmap = match rb_build(list) {
            Some(b) => b,
            None => {
                // unreachable: the codec takes strictly increasing lists only
                return ;
            },
        };
        rb_serialize(&bitmap, out);
        proof {
            assert(out@.skip(old(out)@.len() as int) =~= rb_bytes(bitmap));
        }
    }

    fn decode(&self, kind: Kind, universe: u32, n: usize, buf: &[u8], out: &mut Vec<u32>) {
        let bitmap = match rb_deserialize(buf) {
            Some(b) => b,
            None => {
                return ;
            },
        };
        let vals = rb_collect(&bitmap);
        let ghost start = out@;
        let mut i: usize = 0;
        while i < vals.len()
            invariant
                i <= vals@.len(),
                out@ == start + vals@.subrange(0, i as int),
            decreases vals@.len() - i,
        {
            out.push(vals[i]);
            proof {
                assert(out@ =~= start + vals@.subrange(0, i + 1));
            }
            i = i + 1;
        }
        assert(vals@.subrange(0, vals@.len() as int) =~= vals@);
    }

    fn aux_bytes(&self, universe: u32, n: usize, buf: &[u8]) -> (r: Option<usize>)
        ensures
            r is None,
    {
        None
    }

    fn cursor<'a>(&self, universe: u32, n: usize, buf: &'a [u8]) -> (r: Option<
        Box<dyn Cursor + 'a>,
    >) {
        None
    }

    fn get(&self, kind: Kind, universe: u32, n: usize, buf: &[u8], i: usize) -> (r: Option<u32>) {
        None
    }

    fn open<'a>(&self, kind: Kind, universe: u32, n: usize, buf: &'a [u8]) -> (r: Option<
        Box<dyn Prepared + 'a>,
    >) {
        let bitmap = match rb_deserialize(buf) {
            Some(b) => b,
            None => {
                return None;
            },
        };
        let p = RoaringPrepared { bitmap };
        assert(p.wf());
        let b: Box<dyn Prepared + 'a> = Box::new(p);
        let r = Some(b);
        assert(r.unwrap().wf());
        assert(r.unwrap().list() == self.decoding(kind, universe, n as nat, buf@));
        assert(r.unwrap().seekable());
        assert(r.unwrap().indexable());
        r
    }
}

struct RoaringPrepared {
    bitmap: RoaringBitmap,
}

impl Prepared for RoaringPrepared {
    closed spec fn wf(&self) -> bool {
        strictly_increasing(rb_values(self.bitmap))
    }

    closed spec fn list(&self) -> Seq<u32> {
        rb_values(self.bitmap)
    }

    closed spec fn seekable(&self) -> bool {
        true
    }

    closed spec fn indexable(&self) -> bool {
        true
    }

    closed spec fn any_index(&self) -> bool {
        true
    }

    fn cursor(&self) -> (r: Option<Box<dyn Cursor + '_>>) {
        let c = RoaringCursor {
            iter: rb_iter(&self.bitmap),
            cur: None,
            vals: Ghost(rb_values(self.bitmap)),
            pos: Ghost(-1),
        };
        assert(rb_values(self.bitmap).skip(0) =~= rb_values(self.bitmap));
        assert(c.wf());
        let b: Box<dyn Cursor + '_> = Box::new(c);
        let r = Some(b);
        assert(r.unwrap().wf());
        assert(r.unwrap().values() == self.list());
        assert(r.unwrap().index() == -1);
        r
    }

    fn get(&self, i: usize) -> (r: Option<u32>) {
        if i > 0xffff_ffffusize {
            // past every index a bitmap can hold
            proof {
                lemma_increasing_len(rb_values(self.bitmap));
            }
            return None;
        }
        rb_select(&self.bitmap, i as u32)
    }
}

/// An iterator over the bitmap and the element it last yielded. The ghost
/// `pos` is the current index (`-1` before the first); the iterator still
/// holds everything after it.
struct RoaringCursor<'a> {
    iter: Iter<'a>,
    cur: Option<u32>,
    vals: Ghost<Seq<u32>>,
    pos: Ghost<int>,
}

/// Where the values still to come start, for a cursor at `pos`.
pub open spec fn rest_start(pos: int, len: int) -> int {
    if pos < len {
        pos + 1
    } else {
        len
    }
}

impl<'a> Cursor for RoaringCursor<'a> {
    closed spec fn wf(&self) -> bool {
        &&& strictly_increasing(self.vals@)
        &&& -1 <= self.pos@ <= self.vals@.len()
        &&& self.cur == at(self.vals@, self.pos@)
        &&& iter_rest(self.iter) == self.vals@.skip(rest_start(self.pos@, self.vals@.len() as int))
    }

    closed spec fn values(&self) -> Seq<u32> {
        self.vals@
    }

    closed spec fn index(&self) -> int {
        self.pos@
    }

    fn next_geq(&mut self, target: u32) -> (r: Option<u32>) {
        match self.cur {
            Some(c) => {
                if c >= target {
                    proof {
                        lemma_first_geq_is(self.vals@, self.pos@, target, self.pos@);
                    }
                    return Some(c);
                }
            },
            None => {},
        }
        let ghost vals = self.vals@;
        let ghost len = vals.len() as int;
        let ghost s0 = rest_start(self.pos@, len);
        let ghost j = prefix_below(vals.skip(s0), target);
        iter_advance_to(&mut self.iter, target);
        self.cur = iter_next(&mut self.iter);
        proof {
            lemma_prefix_below(vals.skip(s0), target);
            lemma_seek_by_prefix(vals, s0, target);
            let from = seek_start(old(self).pos@);
            if 0 <= old(self).pos@ < len {
                // the current element is below the target
                assert(first_geq(vals, from, target) == first_geq(vals, from + 1, target));
            }
            assert(vals.skip(s0).skip(j as int) =~= vals.skip(s0 + j));
            if s0 + j < len {
                assert(vals.skip(s0 + j)[0] == vals[s0 + j]);
                assert(vals.skip(s0 + j).skip(1) =~= vals.skip(s0 + j + 1));
            }
            self.pos@ = s0 + j;
        }
        self.cur
    }

    fn next(&mut self) -> (r: Option<u32>) {
        let ghost vals = self.vals@;
        let ghost len = vals.len() as int;
        let ghost s0 = rest_start(self.pos@, len);
        self.cur = iter_next(&mut self.iter);
        proof {
            if s0 < len {
                assert(vals.skip(s0)[0] == vals[s0]);
                assert(vals.skip(s0).skip(1) =~= vals.skip(s0 + 1));
            }
            self.pos@ = if self.pos@ < len {
                self.pos@ + 1
            } else {
                len
            };
        }
        self.cur
    }
}

} // verus!
