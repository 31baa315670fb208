//! `sucds` crate's `EliasFano`, built for the list's universe and count,
//! with the rank index enabled so `rank` works, and stored with the crate's
//! own serialisation. `open` deserialises once; the cursor keeps the current
//! index and jumps with `rank(target)` (the first index whose value is
//! `>= target`), and `get` is `select`. An empty list cannot be built (the
//! builder rejects a count of zero), so it is built with capacity one and
//! nothing pushed: an EF with no values.

use vstd::prelude::*;
use vstd::string::StringSliceAdditionalSpecFns;

use sucds::bit_vectors::DArray;
use sucds::mii_sequences::{EliasFano, EliasFanoBuilder};
use sucds::Serializable;

use super::{accepts, advance, at, first_geq, lemma_first_geq_is, seek_start, Caps, Codec, Cursor, Prepared};
use crate::stream::{below, strictly_increasing, Kind};

verus! {

#[verifier::external_type_specification]
#[verifier::external_body]
pub struct ExEliasFano(EliasFano);

#[verifier::external_type_specification]
#[verifier::external_body]
pub struct ExEliasFanoBuilder(EliasFanoBuilder);

#[verifier::external_type_specification]
#[verifier::external_body]
pub struct ExDArray(DArray);

/// The values an `EliasFano` holds, in order.
pub uninterp spec fn ef_values(ef: EliasFano) -> Seq<u64>;

/// The exclusive bound an `EliasFano` was built for.
pub uninterp spec fn ef_universe(ef: EliasFano) -> u64;

/// Whether its rank index is built (`has_rank`).
pub uninterp spec fn ef_ranked(ef: EliasFano) -> bool;

/// The bytes `serialize_into` writes for an `EliasFano`.
pub uninterp spec fn ef_bytes(ef: EliasFano) -> Seq<u8>;

/// What `deserialize_from` reads from some bytes (`None` for an error).
pub uninterp spec fn ef_parsed(buf: Seq<u8>) -> Option<EliasFano>;

/// What `DArray::deserialize_from` reads from some bytes (`None` for an
/// error).
pub uninterp spec fn darray_parsed(buf: Seq<u8>) -> Option<DArray>;

/// The `size_in_bytes` of a `DArray`'s select-one index.
pub uninterp spec fn darray_s1_size(d: DArray) -> usize;

/// The `size_in_bytes` of a `DArray`'s select-zero index, `None` when it
/// has none.
pub uninterp spec fn darray_s0_size(d: DArray) -> Option<usize>;

/// What `EliasFanoBuilder::new` returns for a universe and a count.
pub uninterp spec fn efb_made(universe: u64, num_vals: usize) -> Option<EliasFanoBuilder>;

/// A builder after `extend` with some values.
pub uninterp spec fn efb_extended(b: EliasFanoBuilder, vals: Seq<u64>) -> EliasFanoBuilder;

/// What `build` makes of a builder.
pub uninterp spec fn efb_built(b: EliasFanoBuilder) -> EliasFano;

/// What `enable_rank` makes of a structure.
pub uninterp spec fn ef_with_rank(ef: EliasFano) -> EliasFano;

/// The values pushed into a builder so far.
pub uninterp spec fn efb_values(b: EliasFanoBuilder) -> Seq<u64>;

/// The exclusive bound a builder was made with.
pub uninterp spec fn efb_universe(b: EliasFanoBuilder) -> u64;

/// The count a builder was made for.
pub uninterp spec fn efb_capacity(b: EliasFanoBuilder) -> nat;

/// `s` never decreases, and stays at or above `from`.
pub open spec fn non_decreasing_from(from: u64, s: Seq<u64>) -> bool {
    &&& forall|i: int, j: int| 0 <= i < j < s.len() ==> s[i] <= s[j]
    &&& forall|i: int| 0 <= i < s.len() ==> from <= #[trigger] s[i]
}

/// The number of values below `v`.
pub open spec fn count_below(s: Seq<u64>, v: u64) -> nat
    decreases s.len(),
{
    if s.len() == 0 {
        0
    } else {
        count_below(s.drop_last(), v) + if s.last() < v {
            1nat
        } else {
            0nat
        }
    }
}

/// `EliasFanoBuilder::new`: fails exactly when `num_vals` is zero; else an
/// empty builder for `universe` and `num_vals` values.
#[verifier::external_body]
fn efb_new(universe: u64, num_vals: usize) -> (r: Option<EliasFanoBuilder>)
    ensures
        r == efb_made(universe, num_vals),
        r is Some <==> num_vals > 0,
        r matches Some(b) ==> efb_values(b) == Seq::<u64>::empty() && efb_universe(b) == universe
            && efb_capacity(b) == num_vals,
{
    EliasFanoBuilder::new(universe, num_vals).ok()
}

/// `EliasFanoBuilder::extend` with the list's values widened to `u64`.
/// Claims, from the push rules in the source: when the values never
/// decrease (from the last one pushed, or zero), stay below the universe
/// and fit the remaining capacity, every one is pushed and the call
/// succeeds; the universe and capacity never change.
#[verifier::external_body]
fn efb_extend(b: &mut EliasFanoBuilder, list: &[u32]) -> (ok: bool)
    ensures
        *final(b) == efb_extended(*old(b), widened(list@)),
        efb_universe(*final(b)) == efb_universe(*old(b)),
        efb_capacity(*final(b)) == efb_capacity(*old(b)),
        ({
            let vals = list@.map_values(|v: u32| v as u64);
            let before = efb_values(*old(b));
            let last = if before.len() == 0 {
                0u64
            } else {
                before.last()
            };
            non_decreasing_from(last, vals) && (forall|i: int|
                0 <= i < vals.len() ==> #[trigger] vals[i] < efb_universe(*old(b)))
                && before.len() + vals.len() <= efb_capacity(*old(b)) ==> ok && efb_values(
                *final(b),
            ) == before + vals
        }),
{
    b.extend(list.iter().map(|&v| u64::from(v))).is_ok()
}

/// `EliasFanoBuilder::build`: the same values and universe.
#[verifier::external_body]
fn efb_build(b: EliasFanoBuilder) -> (ef: EliasFano)
    ensures
        ef == efb_built(b),
        ef_values(ef) == efb_values(b),
        ef_universe(ef) == efb_universe(b),
{
    b.build()
}

/// `EliasFano::enable_rank`: the same values and universe, rank index built.
#[verifier::external_body]
fn ef_enable_rank(ef: EliasFano) -> (r: EliasFano)
    ensures
        r == ef_with_rank(ef),
        ef_values(r) == ef_values(ef),
        ef_universe(r) == ef_universe(ef),
        ef_ranked(r),
{
    ef.enable_rank()
}

/// `Serializable::serialize_into` a vector, which cannot fail: appends
/// `ef_bytes(ef)`. Claims, as the crate's own round trip: `deserialize_from`
/// reads those bytes back as a structure with the same values, universe and
/// rank index.
#[verifier::external_body]
fn ef_serialize(ef: &EliasFano, out: &mut Vec<u8>)
    ensures
        final(out)@ == old(out)@ + ef_bytes(*ef),
        reads_back(final(out)@.skip(old(out)@.len() as int), *ef),
{
    let _ = ef.serialize_into(&mut *out);
}

/// `deserialize_from` reads `buf` back as a structure holding what `ef` holds.
pub open spec fn reads_back(buf: Seq<u8>, ef: EliasFano) -> bool {
    ef_parsed(buf) matches Some(d) && ef_values(d) == ef_values(ef) && ef_universe(d) == ef_universe(
        ef,
    ) && ef_ranked(d) == ef_ranked(ef)
}

/// `Serializable::deserialize_from` a byte slice; its result is named.
#[verifier::external_body]
fn ef_deserialize(buf: &[u8]) -> (r: Option<EliasFano>)
    ensures
        r == ef_parsed(buf@),
{
    EliasFano::deserialize_from(buf).ok()
}

/// `EliasFano::len`: the number of values.
#[verifier::external_body]
fn ef_len(ef: &EliasFano) -> (r: usize)
    ensures
        r == ef_values(*ef).len(),
{
    ef.len()
}

/// `EliasFano::select`: the `k`-th value, `None` past the end.
#[verifier::external_body]
fn ef_select(ef: &EliasFano, k: usize) -> (r: Option<u64>)
    ensures
        k < ef_values(*ef).len() ==> r == Some(ef_values(*ef)[k as int]),
        k >= ef_values(*ef).len() ==> r is None,
{
    ef.select(k)
}

/// `EliasFano::rank`: the number of values below `val`, `None` when `val`
/// is past the universe. Needs the rank index, else it panics. It scans
/// one bucket of high bits in order, so the count holds only for values
/// that never decrease, which is required here.
#[verifier::external_body]
fn ef_rank(ef: &EliasFano, val: u64) -> (r: Option<usize>)
    requires
        ef_ranked(*ef),
        non_decreasing_from(0, ef_values(*ef)),
    ensures
        val <= ef_universe(*ef) ==> r == Some(count_below(ef_values(*ef), val) as usize),
        val > ef_universe(*ef) ==> r is None,
{
    ef.rank(val)
}

/// `EliasFano::iter(0).take(n)`, collected: the first `n` values.
#[verifier::external_body]
fn ef_first(ef: &EliasFano, n: usize) -> (r: Vec<u64>)
    requires
        n > 0,
        n <= ef_values(*ef).len(),
    ensures
        r@ == ef_values(*ef).subrange(0, n as int),
{
    ef.iter(0).take(n).collect()
}

/// `DArray::deserialize_from` a byte slice, the error dropped: the result
/// is the one named for those bytes.
#[verifier::external_body]
fn darray_deserialize(buf: &[u8]) -> (r: Option<DArray>)
    ensures
        r == darray_parsed(buf@),
{
    DArray::deserialize_from(buf).ok()
}

/// `DArray::s1_index().size_in_bytes()`: the size named for the structure.
#[verifier::external_body]
fn darray_s1_bytes(d: &DArray) -> (r: usize)
    ensures
        r == darray_s1_size(*d),
{
    d.s1_index().size_in_bytes()
}

/// `DArray::s0_index()` and its `size_in_bytes()`: the size named for the
/// structure, `None` without a select-zero index.
#[verifier::external_body]
fn darray_s0_bytes(d: &DArray) -> (r: Option<usize>)
    ensures
        r == darray_s0_size(*d),
{
    d.s0_index().map(|s0| s0.size_in_bytes())
}

/// Index bytes of a high-bits structure: the select-one index plus the
/// select-zero index when there is one, saturating.
pub open spec fn index_total(s1: usize, s0: Option<usize>) -> usize {
    match s0 {
        Some(x) => if s1 + x > usize::MAX {
            usize::MAX
        } else {
            (s1 + x) as usize
        },
        None => s1,
    }
}

/// [`index_total`] of the two index sizes.
pub fn total_index_bytes(s1: usize, s0: Option<usize>) -> (r: usize)
    ensures
        r == index_total(s1, s0),
{
    match s0 {
        Some(x) => s1.saturating_add(x),
        None => s1,
    }
}

/// The list as `u64` values.
pub open spec fn widened(list: Seq<u32>) -> Seq<u64> {
    list.map_values(|v: u32| v as u64)
}

/// The bytes `encode` appends: the structure built for the universe and
/// the list (capacity one when the list is empty), rank index enabled.
pub open spec fn ef_encoding(universe: u32, list: Seq<u32>) -> Seq<u8> {
    let count: usize = if list.len() > 0 {
        list.len() as usize
    } else {
        1usize
    };
    ef_bytes(
        ef_with_rank(efb_built(efb_extended(efb_made(universe as u64, count)->0, widened(list)))),
    )
}

/// A decodable buffer parses as a well-formed structure holding `n` values.
pub open spec fn ef_decodable(n: nat, buf: Seq<u8>) -> bool {
    ef_parsed(buf) matches Some(ef) && ef_good(ef) && ef_values(ef).len() == n
}

/// The values as `u32`.
pub open spec fn narrowed(s: Seq<u64>) -> Seq<u32> {
    s.map_values(|v: u64| v as u32)
}

proof fn lemma_widened_props(list: Seq<u32>, universe: u32)
    requires
        strictly_increasing(list),
        below(list, universe),
    ensures
        non_decreasing_from(0, widened(list)),
        forall|i: int| 0 <= i < list.len() ==> #[trigger] widened(list)[i] < universe as u64,
        narrowed(widened(list)) == list,
{
    assert(narrowed(widened(list)) =~= list);
}

/// In strictly increasing values, the count below `t` is where a seek for
/// `t` lands.
proof fn lemma_count_below_seek(s: Seq<u64>, t: u64)
    requires
        forall|i: int, j: int| 0 <= i < j < s.len() ==> s[i] < s[j],
        forall|i: int| 0 <= i < s.len() ==> #[trigger] s[i] <= u32::MAX,
        t <= u32::MAX,
    ensures
        count_below(s, t) <= s.len(),
        forall|j: int| 0 <= j < count_below(s, t) ==> #[trigger] s[j] < t,
        count_below(s, t) < s.len() ==> s[count_below(s, t) as int] >= t,
    decreases s.len(),
{
    if s.len() > 0 {
        let p = s.drop_last();
        lemma_count_below_seek(p, t);
        assert forall|j: int| 0 <= j < count_below(s, t) implies #[trigger] s[j] < t by {
            if j < count_below(p, t) {
                assert(s[j] == p[j]);
            } else {
                assert(s.last() < t);
                if j < s.len() - 1 {
                    assert(s[j] < s.last());
                }
            }
        }
        if count_below(s, t) < s.len() {
            if s.last() < t {
                assert(count_below(s, t) == count_below(p, t) + 1);
                assert(count_below(p, t) == p.len());
            } else {
                assert(count_below(s, t) == count_below(p, t));
                if count_below(p, t) < p.len() {
                    assert(s[count_below(p, t) as int] == p[count_below(p, t) as int]);
                }
            }
        }
    }
}

pub struct EliasFanoCodec;

impl Codec for EliasFanoCodec {
    open spec fn spec_caps(&self) -> Caps {
        Caps { sorted_only: true, streaming_encoder: true, seek: true, random_access: true }
    }

    open spec fn in_place(&self) -> bool {
        false
    }

    /// The serialised structure built from the list (nothing pushed when empty).
    open spec fn encoding(&self, kind: Kind, universe: u32, list: Seq<u32>) -> Seq<u8> {
        ef_encoding(universe, list)
    }

    open spec fn decodable(&self, kind: Kind, universe: u32, n: nat, buf: Seq<u8>) -> bool {
        ef_decodable(n, buf)
    }

    open spec fn decoding(&self, kind: Kind, universe: u32, n: nat, buf: Seq<u8>) -> Seq<u32> {
        narrowed(ef_values(ef_parsed(buf)->0))
    }

    open spec fn get_any(&self) -> bool {
        true
    }

    open spec fn lossless(&self) -> bool {
        true
    }

    fn is_lossless(&self) -> (r: bool) {
        true
    }

    open spec fn label(&self) -> Seq<u8> {
        "elias-fano".spec_bytes()
    }

    fn name(&self) -> (r: &'static str) {
        "elias-fano"
    }

    fn caps(&self) -> (c: Caps) {
        Caps { sorted_only: true, streaming_encoder: true, seek: true, random_access: true }
    }

    fn encode(&self, kind: Kind, universe: u32, list: &[u32], out: &mut Vec<u8>) {
        let count = if list.len() > 0 {
            list.len()
        } else {
            1
        };
        let mut builder = match efb_new(universe as u64, count) {
            Some(b) => b,
            None => {
                return ;
            },
        };
        proof {
            lemma_widened_props(list@, universe);
        }
        let _ = efb_extend(&mut builder, list);
        assert(efb_values(builder) =~= widened(list@));
        let ef = ef_enable_rank(efb_build(builder));
        ef_serialize(&ef, out);
        proof {
            assert(out@.skip(old(out)@.len() as int) =~= ef_bytes(ef));
            let d = ef_parsed(ef_bytes(ef))->0;
            assert(ef_values(d) == widened(list@));
            assert(ef_good(d));
        }
    }

    fn decode(&self, kind: Kind, universe: u32, n: usize, buf: &[u8], out: &mut Vec<u32>) {
        let ef = match ef_deserialize(buf) {
            Some(ef) => ef,
            None => {
                return ;
            },
        };
        if n > 0 {
            let vals = ef_first(&ef, n);
            let ghost start = out@;
            let mut i: usize = 0;
            while i < vals.len()
                invariant
                    i <= vals@.len(),
                    vals@.len() == n,
                    out@ == start + narrowed(vals@).subrange(0, i as int),
                decreases vals@.len() - i,
            {
                out.push(vals[i] as u32);
                proof {
                    assert(out@ =~= start + narrowed(vals@).subrange(0, i + 1));
                }
                i = i + 1;
            }
            assert(vals@ =~= ef_values(ef));
            assert(narrowed(vals@).subrange(0, n as int) =~= narrowed(ef_values(ef)));
        } else {
            assert(narrowed(ef_values(ef)) =~= Seq::<u32>::empty());
        }
    }

    fn aux_bytes(&self, universe: u32, n: usize, buf: &[u8]) -> (r: Option<usize>)
        ensures
            r == (match darray_parsed(buf@) {
                Some(d) => Some(index_total(darray_s1_size(d), darray_s0_size(d))),
                None => None,
            }),
    {
        let high = match darray_deserialize(buf) {
            Some(d) => d,
            None => {
                return None;
            },
        };
        let s1 = darray_s1_bytes(&high);
        let s0 = darray_s0_bytes(&high);
        Some(total_index_bytes(s1, s0))
    }

    fn cursor<'a>(&self, universe: u32, n: usize, buf: &'a [u8]) -> (r: Option<
        Box<dyn Cursor + 'a>,
    >) {
        None
    }

    fn get(&self, kind: Kind, universe: u32, n: usize, buf: &[u8], i: usize) -> (r: Option<u32>) {
        None
    }

    fn open<'a>(&self, kind: Kind, universe: u32, n: usize, buf: &'a [u8]) -> (r: Option<
        Box<dyn Prepared + 'a>,
    >) {
        let ef = match ef_deserialize(buf) {
            Some(ef) => ef,
            None => {
                return None;
            },
        };
        let p = EfPrepared { ef };
        assert(p.wf());
        let b: Box<dyn Prepared + 'a> = Box::new(p);
        let r = Some(b);
        assert(r.unwrap().wf());
        assert(r.unwrap().list() == self.decoding(kind, universe, n as nat, buf@));
        assert(r.unwrap().seekable());
        assert(r.unwrap().indexable());
        r
    }
}

struct EfPrepared {
    ef: EliasFano,
}

/// The values fit `u32`, strictly increase, stay below the universe, and
/// the rank index is built.
pub open spec fn ef_good(ef: EliasFano) -> bool {
    let s = ef_values(ef);
    &&& ef_ranked(ef)
    &&& s.len() < usize::MAX
    &&& forall|i: int| 0 <= i < s.len() ==> #[trigger] s[i] <= u32::MAX
    &&& forall|i: int, j: int| 0 <= i < j < s.len() ==> s[i] < s[j]
    &&& forall|i: int| 0 <= i < s.len() ==> #[trigger] s[i] < ef_universe(ef)
}

impl Prepared for EfPrepared {
    closed spec fn wf(&self) -> bool {
        ef_good(self.ef)
    }

    closed spec fn list(&self) -> Seq<u32> {
        narrowed(ef_values(self.ef))
    }

    closed spec fn seekable(&self) -> bool {
        true
    }

    closed spec fn indexable(&self) -> bool {
        true
    }

    closed spec fn any_index(&self) -> bool {
        true
    }

    fn cursor(&self) -> (r: Option<Box<dyn Cursor + '_>>) {
        let c = EfCursor { ef: &self.ef, k: usize::MAX, cur: None };
        assert(c.wf());
        let b: Box<dyn Cursor + '_> = Box::new(c);
        let r = Some(b);
        assert(r.unwrap().wf());
        assert(r.unwrap().values() == self.list());
        assert(r.unwrap().index() == -1);
        r
    }

    fn get(&self, i: usize) -> (r: Option<u32>) {
        match ef_select(&self.ef, i) {
            Some(v) => Some(v as u32),
            None => None,
        }
    }
}

/// `k` is the index of the current element; `usize::MAX` is "before the
/// first". `next_geq` jumps straight to `rank(target)`: the number of
/// values below `target`, which is where the seek lands.
struct EfCursor<'a> {
    ef: &'a EliasFano,
    k: usize,
    cur: Option<u32>,
}

impl<'a> Cursor for EfCursor<'a> {
    closed spec fn wf(&self) -> bool {
        &&& ef_good(*self.ef)
        &&& (self.k == usize::MAX || self.k <= ef_values(*self.ef).len())
        &&& self.cur == (if self.k == usize::MAX {
            None
        } else {
            at(narrowed(ef_values(*self.ef)), self.k as int)
        })
    }

    closed spec fn values(&self) -> Seq<u32> {
        narrowed(ef_values(*self.ef))
    }

    closed spec fn index(&self) -> int {
        if self.k == usize::MAX {
            -1
        } else {
            self.k as int
        }
    }

    fn next_geq(&mut self, target: u32) -> (r: Option<u32>) {
        let ghost s = ef_values(*self.ef);
        let ghost vals = narrowed(s);
        let len = ef_len(self.ef);
        if self.k != usize::MAX && self.k >= len {
            // exhausted: nothing at or after the end
            return None;
        }
        match self.cur {
            Some(c) => {
                if c >= target {
                    proof {
                        lemma_first_geq_is(vals, self.k as int, target, self.k as int);
                    }
                    return Some(c);
                }
            },
            None => {},
        }
        self.k = match ef_rank(self.ef, target as u64) {
            Some(k) => k,
            None => len,
        };
        proof {
            lemma_count_below_seek(s, target as u64);
            let from = seek_start(old(self).index());
            if self.k < len {
                assert(vals[self.k as int] == s[self.k as int] as u32);
            }
            assert forall|j: int| from <= j < self.k implies vals[j] < target by {
                assert(vals[j] == s[j] as u32);
            }
            if from > self.k {
                // the current element is below the target, and so is all before it
                let k0 = old(self).k as int;
                assert(old(self).cur == Some(vals[k0]));
                assert(vals[k0] == s[k0] as u32);
                assert(s[k0] < target as u64);
                assert(s[self.k as int] >= target as u64);
                assert(false);
            }
            lemma_first_geq_is(vals, from, target, self.k as int);
        }
        self.cur = match ef_select(self.ef, self.k) {
            Some(v) => Some(v as u32),
            None => None,
        };
        self.cur
    }

    fn next(&mut self) -> (r: Option<u32>) {
        let len = ef_len(self.ef);
        if self.k == usize::MAX {
            self.k = 0;
        } else if self.k < len {
            self.k = self.k + 1;
        }
        self.cur = match ef_select(self.ef, self.k) {
            Some(v) => Some(v as u32),
            None => None,
        };
        self.cur
    }
}

} // verus!
