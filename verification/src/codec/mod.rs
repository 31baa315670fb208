//! The codec contract and the registry of codecs under test.
//!
//! Contract every adapter honours:
//!
//! * `encode` gets one list. The list's length and the dataset universe are
//!   stored by the harness, so codecs do not spend bytes on them, and
//!   `decode`/`cursor`/`get` receive them back.
//! * Sorted lists are strictly increasing and below the universe; delta
//!   coding is the codec's job. Unsorted lists are arbitrary `u32`; a codec
//!   that only handles sorted input says so via [`Caps::sorted_only`].
//! * `decode` produces exactly the original list.
//! * `cursor` and `get` are optional; `None` means no native support.
//! * `open` turns encoded bytes into whatever the codec needs to answer
//!   cursor/get queries; the default holds the bytes.

use vstd::prelude::*;
use vstd::string::StringSliceAdditionalSpecFns;

use crate::stream::{below, strictly_increasing, Kind};

pub mod bp128;
pub mod bp128skip;
pub mod eliasfano;
pub mod fastpfor;
pub mod lucene;
pub mod lucene_pfor;
pub mod pef;
pub mod raw;
pub mod roaring_bitmap;
pub mod streamvbyte;
pub mod vbyte;

verus! {

/// What a codec can do natively; drives which benchmarks run against it.
#[derive(Clone, Copy, Debug)]
pub struct Caps {
    /// Only accepts strictly increasing input.
    pub sorted_only: bool,
    /// The encoder can emit output before it has seen the whole list.
    pub streaming_encoder: bool,
    /// A sorted list opened with [`prepare`] answers `cursor` with `Some`.
    /// Codecs queried in place (no [`Codec::open`]) give it through
    /// [`Codec::cursor`] on the bytes; codecs that deserialise once give it
    /// through their opened form, and their own `cursor` answers `None`.
    pub seek: bool,
    /// A list opened with [`prepare`] answers `get` with `Some` for every
    /// index below its length: through [`Codec::get`] on the bytes for
    /// codecs queried in place, through the opened form otherwise.
    pub random_access: bool,
}

/// A list that a slice can hold and whose length the formats can count in
/// a `u32`: sixty-four bytes per value still fit in `usize`, so every
/// format's bit positions do too.
pub open spec fn fits_memory(len: nat) -> bool {
    &&& len * 64 <= usize::MAX
    &&& len <= u32::MAX
}

/// The inputs a codec with these capabilities takes: sorted lists are
/// strictly increasing and below the universe; unsorted lists are any
/// values, unless the codec is sorted-only.
pub open spec fn accepts(caps: Caps, kind: Kind, universe: u32, list: Seq<u32>) -> bool {
    &&& fits_memory(list.len())
    &&& match kind {
        Kind::Sorted => strictly_increasing(list) && below(list, universe),
        Kind::Unsorted => !caps.sorted_only,
    }
}

/// `Some(s[i])` inside the sequence, `None` outside.
pub open spec fn at(s: Seq<u32>, i: int) -> Option<u32> {
    if 0 <= i < s.len() {
        Some(s[i])
    } else {
        None
    }
}

/// Smallest index at or after `from` whose value is at least `target`, or
/// `s.len()` when there is none.
pub open spec fn first_geq(s: Seq<u32>, from: int, target: u32) -> int
    decreases s.len() - from,
{
    if from >= s.len() {
        s.len() as int
    } else if s[from] >= target {
        from
    } else {
        first_geq(s, from + 1, target)
    }
}

/// Where a seek starts: the current element, or the first one for a fresh cursor.
pub open spec fn seek_start(index: int) -> int {
    if index < 0 {
        0
    } else {
        index
    }
}

/// The position after one step, stopping at `len` (exhausted).
pub open spec fn advance(index: int, len: int) -> int {
    if index < len {
        index + 1
    } else {
        len
    }
}

/// `first_geq` is the first index at or after `from` that reaches `target`.
pub proof fn lemma_first_geq_is(s: Seq<u32>, from: int, target: u32, k: int)
    requires
        0 <= from <= k <= s.len(),
        forall|j: int| from <= j < k ==> s[j] < target,
        k == s.len() || s[k] >= target,
    ensures
        first_geq(s, from, target) == k,
    decreases k - from,
{
    if from < k {
        lemma_first_geq_is(s, from + 1, target, k);
    }
}

/// `first_geq` stays within `[from, len]` (for `from <= len`).
pub proof fn lemma_first_geq_range(s: Seq<u32>, from: int, target: u32)
    requires
        0 <= from <= s.len(),
    ensures
        from <= first_geq(s, from, target) <= s.len(),
        forall|j: int| from <= j < first_geq(s, from, target) ==> s[j] < target,
        first_geq(s, from, target) < s.len() ==> s[first_geq(s, from, target)] >= target,
    decreases s.len() - from,
{
    if from < s.len() && s[from] < target {
        lemma_first_geq_range(s, from + 1, target);
    }
}

/// In a strictly increasing list, the first value at or above the value at
/// `i` (searching from at most `i`) is at `i`.
pub proof fn lemma_first_geq_sorted_hit(s: Seq<u32>, from: int, i: int, target: u32)
    requires
        strictly_increasing(s),
        0 <= from <= i < s.len(),
        target <= s[i],
        i == 0 || from == i || s[i - 1] < target,
    ensures
        first_geq(s, from, target) == i,
{
    assert forall|j: int| from <= j < i implies s[j] < target by {
        if j < i - 1 {
            assert(s[j] < s[i - 1]);
        }
    }
    lemma_first_geq_is(s, from, target, i);
}

/// Forward iteration with skip over one encoded sorted list. The abstract
/// state is the decoded list and a position in it: `-1` before the first
/// element, `values().len()` once exhausted.
pub trait Cursor {
    spec fn wf(&self) -> bool;

    spec fn values(&self) -> Seq<u32>;

    spec fn index(&self) -> int;

    /// Position on the smallest value `>= target` at or after the current
    /// element and return it, or `None` once exhausted. If the current
    /// element already satisfies the target the call returns it again
    /// without moving.
    fn next_geq(&mut self, target: u32) -> (r: Option<u32>)
        requires
            old(self).wf(),
        ensures
            final(self).wf(),
            final(self).values() == old(self).values(),
            final(self).index() == first_geq(
                old(self).values(),
                seek_start(old(self).index()),
                target,
            ),
            r == at(final(self).values(), final(self).index()),
    ;

    /// Move to the element after the current one and return it. A fresh
    /// cursor is before the first element, so the first call returns it.
    fn next(&mut self) -> (r: Option<u32>)
        requires
            old(self).wf(),
        ensures
            final(self).wf(),
            final(self).values() == old(self).values(),
            final(self).index() == advance(old(self).index(), old(self).values().len() as int),
            r == at(final(self).values(), final(self).index()),
    ;
}

/// One list, opened for queries. See [`Codec::open`].
pub trait Prepared {
    spec fn wf(&self) -> bool;

    /// The decoded list.
    spec fn list(&self) -> Seq<u32>;

    /// `cursor` answers.
    spec fn seekable(&self) -> bool;

    /// `get` answers.
    spec fn indexable(&self) -> bool;

    fn cursor(&self) -> (r: Option<Box<dyn Cursor + '_>>)
        requires
            self.wf(),
        ensures
            r is Some ==> r.unwrap().wf() && r.unwrap().values() == self.list() && r.unwrap().index()
                == -1,
            self.seekable() <==> r is Some,
    ;

    /// `get` takes any index, answering `None` past the end.
    spec fn any_index(&self) -> bool;

    fn get(&self, i: usize) -> (r: Option<u32>)
        requires
            self.wf(),
            i < self.list().len() || self.any_index(),
        ensures
            r is Some ==> i < self.list().len() && r == Some(self.list()[i as int]),
            self.indexable() && i < self.list().len() ==> r is Some,
    ;
}

pub trait Codec {
    /// The capabilities [`Codec::caps`] reports.
    spec fn spec_caps(&self) -> Caps;

    /// Whether the codec answers cursor and get queries on the encoded bytes
    /// directly (no [`Codec::open`]).
    spec fn in_place(&self) -> bool;

    /// The bytes `encode` appends for a list.
    spec fn encoding(&self, kind: Kind, universe: u32, list: Seq<u32>) -> Seq<u8>;

    /// The buffers `decode` reads without failing.
    spec fn decodable(&self, kind: Kind, universe: u32, n: nat, buf: Seq<u8>) -> bool;

    /// The list `decode` produces from a buffer.
    spec fn decoding(&self, kind: Kind, universe: u32, n: nat, buf: Seq<u8>) -> Seq<u32>;

    /// Whether the round trip is proven for this codec: `encode` then appends
    /// `encoding`, which is decodable and decodes back to the list. For the
    /// others `encode` only promises to append, `decode` still appends
    /// `decoding`, and [`check`] tests the round trip at run time.
    spec fn lossless(&self) -> bool;

    /// Tells the caller whether [`Codec::lossless`] holds.
    fn is_lossless(&self) -> (r: bool)
        ensures
            r == self.lossless(),
    ;

    /// The bytes of [`Codec::name`].
    spec fn label(&self) -> Seq<u8>;

    /// The name the report and the command line use for this codec.
    fn name(&self) -> (r: &'static str)
        ensures
            r.spec_bytes() == self.label(),
    ;

    fn caps(&self) -> (c: Caps)
        ensures
            c == self.spec_caps(),
    ;

    /// Encode one list, appending to `out`. The bytes decode back to the list.
    fn encode(&self, kind: Kind, universe: u32, list: &[u32], out: &mut Vec<u8>)
        requires
            accepts(self.spec_caps(), kind, universe, list@),
        ensures
            old(out)@.len() <= final(out)@.len(),
            final(out)@.subrange(0, old(out)@.len() as int) == old(out)@,
            self.lossless() ==> final(out)@ == old(out)@ + self.encoding(kind, universe, list@),
            self.lossless() ==> self.decodable(
                kind,
                universe,
                list@.len(),
                self.encoding(kind, universe, list@),
            ),
            self.lossless() ==> self.decoding(
                kind,
                universe,
                list@.len(),
                self.encoding(kind, universe, list@),
            ) == list@,
    ;

    /// Decode a list of `n` values from `buf`, appending to `out`.
    fn decode(&self, kind: Kind, universe: u32, n: usize, buf: &[u8], out: &mut Vec<u32>)
        requires
            self.lossless() ==> self.decodable(kind, universe, n as nat, buf@),
        ensures
            self.decodable(kind, universe, n as nat, buf@) ==> final(out)@ == old(out)@
                + self.decoding(kind, universe, n as nat, buf@),
            !self.lossless() ==> final(out)@.len() == old(out)@.len() + n,
            !self.lossless() ==> final(out)@.subrange(0, old(out)@.len() as int) == old(out)@,
    ;

    /// Bytes of `buf` spent on skip/index structures rather than payload, if
    /// the codec can tell.
    fn aux_bytes(&self, universe: u32, n: usize, buf: &[u8]) -> (r: Option<usize>);

    /// Skip cursor on the encoded bytes of a sorted list: `Some` exactly for
    /// codecs queried in place that seek; codecs that deserialise once
    /// answer through [`Codec::open`] instead (see [`Caps::seek`]).
    fn cursor<'a>(&self, universe: u32, n: usize, buf: &'a [u8]) -> (r: Option<
        Box<dyn Cursor + 'a>,
    >)
        requires
            self.decodable(Kind::Sorted, universe, n as nat, buf@),
            strictly_increasing(self.decoding(Kind::Sorted, universe, n as nat, buf@)),
        ensures
            r is Some ==> r.unwrap().wf() && r.unwrap().values() == self.decoding(
                Kind::Sorted,
                universe,
                n as nat,
                buf@,
            ) && r.unwrap().index() == -1,
            self.in_place() && self.spec_caps().seek <==> r is Some,
    ;

    /// `get` takes any index, answering `None` past the end.
    spec fn get_any(&self) -> bool;

    /// Random access by ordinal on the encoded bytes, for codecs queried in
    /// place; codecs that deserialise once answer through [`Codec::open`]
    /// (see [`Caps::random_access`]).
    fn get(&self, kind: Kind, universe: u32, n: usize, buf: &[u8], i: usize) -> (r: Option<u32>)
        requires
            self.decodable(kind, universe, n as nat, buf@),
            i < n || self.get_any(),
        ensures
            r is Some ==> i < n && r == Some(self.decoding(kind, universe, n as nat, buf@)[i as int]),
            (self.in_place() && self.spec_caps().random_access && i < n) <==> r is Some,
    ;

    /// Open one encoded list for repeated cursor/get queries. `None` (the
    /// default) means the format is queried in place.
    fn open<'a>(&self, kind: Kind, universe: u32, n: usize, buf: &'a [u8]) -> (r: Option<
        Box<dyn Prepared + 'a>,
    >)
        requires
            self.decodable(kind, universe, n as nat, buf@),
            self.decoding(kind, universe, n as nat, buf@).len() == n,
            kind == Kind::Sorted ==> strictly_increasing(
                self.decoding(kind, universe, n as nat, buf@),
            ),
        ensures
            self.in_place() ==> r is None,
            r is Some ==> r.unwrap().wf() && r.unwrap().list() == self.decoding(
                kind,
                universe,
                n as nat,
                buf@,
            ),
            r is Some ==> (kind == Kind::Sorted && self.spec_caps().seek ==> r.unwrap().seekable()),
            r is Some ==> (self.spec_caps().random_access ==> r.unwrap().indexable()),
            !self.in_place() ==> r is Some,
    ;
}

/// Default [`Prepared`]: holds the bytes and defers to the codec's
/// `cursor`/`get`.
struct Lazy<'a, C: Codec + ?Sized> {
    codec: &'a C,
    kind: Kind,
    universe: u32,
    n: usize,
    buf: &'a [u8],
}

impl<'a, C: Codec + ?Sized> Prepared for Lazy<'a, C> {
    closed spec fn wf(&self) -> bool {
        &&& self.codec.decodable(self.kind, self.universe, self.n as nat, self.buf@)
        &&& self.codec.decoding(self.kind, self.universe, self.n as nat, self.buf@).len() == self.n
        &&& self.kind == Kind::Sorted ==> strictly_increasing(
            self.codec.decoding(self.kind, self.universe, self.n as nat, self.buf@),
        )
    }

    closed spec fn list(&self) -> Seq<u32> {
        self.codec.decoding(self.kind, self.universe, self.n as nat, self.buf@)
    }

    closed spec fn seekable(&self) -> bool {
        self.codec.in_place() && self.codec.spec_caps().seek && self.kind == Kind::Sorted
    }

    closed spec fn indexable(&self) -> bool {
        self.codec.in_place() && self.codec.spec_caps().random_access
    }

    closed spec fn any_index(&self) -> bool {
        self.codec.get_any()
    }

    fn cursor(&self) -> (r: Option<Box<dyn Cursor + '_>>) {
        if self.kind == Kind::Sorted {
            self.codec.cursor(self.universe, self.n, self.buf)
        } else {
            None
        }
    }

    fn get(&self, i: usize) -> (r: Option<u32>) {
        self.codec.get(self.kind, self.universe, self.n, self.buf, i)
    }
}

/// Open one list for queries: the codec's own [`Codec::open`] if it has one,
/// else the in-place default. Always `Some`.
pub fn prepare<'a, C: Codec + ?Sized + 'a>(codec: &'a C, kind: Kind, universe: u32, n: usize, buf: &'a [u8]) -> (r:
    Option<Box<dyn Prepared + 'a>>)
    requires
        codec.decodable(kind, universe, n as nat, buf@),
        codec.decoding(kind, universe, n as nat, buf@).len() == n,
        kind == Kind::Sorted ==> strictly_increasing(codec.decoding(kind, universe, n as nat, buf@)),
    ensures
        r is Some,
        r.unwrap().wf(),
        r.unwrap().list() == codec.decoding(kind, universe, n as nat, buf@),
        kind == Kind::Sorted && codec.spec_caps().seek ==> r.unwrap().seekable(),
        codec.spec_caps().random_access ==> r.unwrap().indexable(),
{
    let opened = codec.open(kind, universe, n, buf);
    if opened.is_some() {
        return opened;
    }
    let lazy = Lazy { codec, kind, universe, n, buf };
    assert(lazy.n == n);
    assert(lazy.buf@ == buf@);
    assert(lazy.codec.decodable(kind, universe, n as nat, buf@));
    assert(lazy.wf());
    assert(lazy.list() == codec.decoding(kind, universe, n as nat, buf@));
    let p: Box<dyn Prepared + 'a> = Box::new(lazy);
    let r = Some(p);
    assert(r.unwrap().wf());
    assert(r.unwrap().list() == codec.decoding(kind, universe, n as nat, buf@));
    assert(kind == Kind::Sorted && codec.spec_caps().seek ==> r.unwrap().seekable());
    assert(codec.spec_caps().random_access ==> r.unwrap().indexable());
    r
}

/// How a codec failed [`check`].
#[derive(Clone, Copy, Debug, PartialEq, Eq, Structural)]
pub enum CheckError {
    /// Decoding did not give the list back; first differing position.
    Roundtrip { first_diff: usize },
    /// `next_geq(target)` did not land on `expected`.
    Seek { target: u32, expected: u32 },
    /// `next_geq(value)` moved off the current element `value`.
    Moved { value: u32 },
    /// `next_geq(universe)` did not exhaust the cursor.
    NotExhausted,
    /// A second cursor was not available.
    CursorGone,
    /// Sequential `next()` did not return `expected`.
    Next { expected: u32 },
    /// `get(index)` did not return `expected`.
    Get { index: usize, expected: u32 },
}

/// First position where two lists differ, or the shorter length when one
/// is a prefix of the other; `None` when they are equal.
pub fn first_mismatch(a: &[u32], b: &[u32]) -> (r: Option<usize>)
    ensures
        r is None <==> a@ == b@,
        r matches Some(k) ==> k <= a@.len() && k <= b@.len() && (forall|j: int|
            0 <= j < k ==> a@[j] == b@[j]) && (k == a@.len() || k == b@.len() || a@[k as int]
            != b@[k as int]),
{
    let mut i: usize = 0;
    while i < a.len() && i < b.len()
        invariant
            i <= a@.len(),
            i <= b@.len(),
            forall|j: int| 0 <= j < i ==> a@[j] == b@[j],
        decreases a@.len() - i,
    {
        if a[i] != b[i] {
            return Some(i);
        }
        i = i + 1;
    }
    if a.len() == b.len() {
        assert(a@ =~= b@);
        None
    } else {
        Some(i)
    }
}

/// Round-trip and cursor/get conformance check, used by every adapter's
/// tests and by the harness before timing anything. For a lossless codec it
/// returns `Ok` on every list the codec accepts: decode gives the list back,
/// a cursor seeks to every element and stays on it, exhausts past the
/// universe, and steps through the list with `next`, and `get` returns each
/// element. For the others it tests the round trip at run time and fails
/// only there, at a position inside the list.
pub fn check<C: Codec + ?Sized>(codec: &C, kind: Kind, universe: u32, list: &[u32]) -> (r: Result<
    (),
    CheckError,
>)
    requires
        accepts(codec.spec_caps(), kind, universe, list@),
    ensures
        codec.lossless() ==> r is Ok,
        r matches Err(e) ==> (e matches CheckError::Roundtrip { first_diff } && first_diff < list@.len()),
{
    let lossless = codec.is_lossless();
    let mut buf: Vec<u8> = Vec::new();
    codec.encode(kind, universe, list, &mut buf);
    assert(lossless ==> buf@ == codec.encoding(kind, universe, list@));
    let mut back: Vec<u32> = Vec::new();
    codec.decode(kind, universe, list.len(), buf.as_slice(), &mut back);
    assert(lossless ==> back@ == list@);
    match first_mismatch(back.as_slice(), list) {
        Some(k) => {
            proof {
                assert(back@.len() == list@.len());
                if k == list@.len() {
                    assert(back@ =~= list@);
                }
            }
            return Err(CheckError::Roundtrip { first_diff: k });
        },
        None => {},
    }
    if !lossless {
        return Ok(());
    }
    let prepared = match prepare(codec, kind, universe, list.len(), buf.as_slice()) {
        Some(p) => p,
        None => {
            return Ok(());
        },
    };
    let n = list.len();
    if kind == Kind::Sorted {
        match prepared.cursor() {
            Some(mut cur) => {
                // Seek to every element via the gap just before it, then re-seek
                // to the element itself: the cursor must stay put.
                let mut i: usize = 0;
                while i < n
                    invariant
                        n == list@.len(),
                        i <= n,
                        kind == Kind::Sorted,
                        strictly_increasing(list@),
                        below(list@, universe),
                        cur.wf(),
                        cur.values() == list@,
                        cur.index() == i - 1,
                    decreases n - i,
                {
                    let v = list[i];
                    let target = if i > 0 && list[i - 1] < v - 1 {
                        list[i - 1] + 1
                    } else {
                        v
                    };
                    proof {
                        if i > 0 {
                            assert(list@[i - 1] < list@[i as int]);
                        }
                        lemma_first_geq_sorted_hit(list@, seek_start(i - 1), i as int, target);
                    }
                    match cur.next_geq(target) {
                        Some(got) => {
                            if got != v {
                                return Err(CheckError::Seek { target, expected: v });
                            }
                        },
                        None => {
                            return Err(CheckError::Seek { target, expected: v });
                        },
                    }
                    proof {
                        lemma_first_geq_sorted_hit(list@, i as int, i as int, v);
                    }
                    match cur.next_geq(v) {
                        Some(got) => {
                            if got != v {
                                return Err(CheckError::Moved { value: v });
                            }
                        },
                        None => {
                            return Err(CheckError::Moved { value: v });
                        },
                    }
                    i = i + 1;
                }
                proof {
                    lemma_first_geq_is(list@, seek_start(n - 1), universe, n as int);
                }
                if cur.next_geq(universe).is_some() {
                    return Err(CheckError::NotExhausted);
                }
                // Sequential next() from a fresh cursor.
                let mut cur = match prepared.cursor() {
                    Some(c) => c,
                    None => {
                        return Err(CheckError::CursorGone);
                    },
                };
                let mut i: usize = 0;
                while i < n
                    invariant
                        n == list@.len(),
                        i <= n,
                        cur.wf(),
                        cur.values() == list@,
                        cur.index() == i - 1,
                    decreases n - i,
                {
                    let v = list[i];
                    match cur.next() {
                        Some(got) => {
                            if got != v {
                                return Err(CheckError::Next { expected: v });
                            }
                        },
                        None => {
                            return Err(CheckError::Next { expected: v });
                        },
                    }
                    i = i + 1;
                }
            },
            None => {},
        }
    }
    if codec.caps().random_access {
        let mut i: usize = 0;
        while i < n
            invariant
                n == list@.len(),
                i <= n,
                prepared.wf(),
                prepared.list() == list@,
                prepared.indexable(),
            decreases n - i,
        {
            let v = list[i];
            match prepared.get(i) {
                Some(got) => {
                    if got != v {
                        return Err(CheckError::Get { index: i, expected: v });
                    }
                },
                None => {
                    return Err(CheckError::Get { index: i, expected: v });
                },
            }
            i = i + 1;
        }
    }
    Ok(())
}

/// The sorted cases: a strictly increasing list below its universe.
pub open spec fn sorted_case(c: (u32, Vec<u32>)) -> bool {
    strictly_increasing(c.1@) && below(c.1@, c.0) && fits_memory(c.1@.len())
}

/// `(0..n).map(|i| i * step + offset)`.
fn arithmetic(n: u32, step: u32, offset: u32) -> (r: Vec<u32>)
    requires
        n as int * step as int + offset as int <= u32::MAX,
        step >= 1,
    ensures
        r@.len() == n,
        forall|i: int| 0 <= i < n ==> #[trigger] r@[i] == i * step + offset,
{
    let mut v: Vec<u32> = Vec::new();
    let mut i: u32 = 0;
    while i < n
        invariant
            i <= n,
            n as int * step as int + offset as int <= u32::MAX,
            v@.len() == i,
            forall|j: int| 0 <= j < i ==> #[trigger] v@[j] == j * step + offset,
        decreases n - i,
    {
        assert(i * step + offset <= n * step + offset) by (nonlinear_arith)
            requires
                i < n,
        ;
        v.push(i * step + offset);
        i = i + 1;
    }
    v
}

proof fn lemma_arithmetic_sorted(r: Seq<u32>, n: u32, step: u32, offset: u32)
    requires
        r.len() == n,
        step >= 1,
        forall|i: int| 0 <= i < n ==> #[trigger] r[i] == i * step + offset,
    ensures
        strictly_increasing(r),
{
    assert forall|a: int, b: int| 0 <= a < b < r.len() implies r[a] < r[b] by {
        assert(a * step + offset < b * step + offset) by (nonlinear_arith)
            requires
                a < b,
                step >= 1,
        ;
    }
}

/// `(0..n).map(|i| i * i)`.
fn squares(n: u32) -> (r: Vec<u32>)
    requires
        n <= 1000,
    ensures
        r@.len() == n,
        forall|i: int| 0 <= i < n ==> #[trigger] r@[i] == i * i,
        forall|i: int| 0 <= i < n ==> #[trigger] r@[i] < 0x10_0000,
        strictly_increasing(r@),
{
    let mut v: Vec<u32> = Vec::new();
    let mut i: u32 = 0;
    while i < n
        invariant
            i <= n <= 1000,
            v@.len() == i,
            forall|j: int| 0 <= j < i ==> #[trigger] v@[j] == j * j,
            forall|j: int| 0 <= j < i ==> #[trigger] v@[j] < 0x10_0000,
        decreases n - i,
    {
        assert(i * i <= 999 * 999) by (nonlinear_arith)
            requires
                i < 1000,
        ;
        v.push(i * i);
        i = i + 1;
    }
    assert forall|a: int, b: int| 0 <= a < b < v@.len() implies v@[a] < v@[b] by {
        assert(a * a < b * b) by (nonlinear_arith)
            requires
                0 <= a < b,
        ;
    }
    v
}

/// The universe of the sorted conformance cases.
pub const CASE_UNIVERSE: u32 = 0x10_0000;

/// Conformance case `k`: the universe and the list. The first eight are
/// sorted below [`CASE_UNIVERSE`]: empty, `0`, the largest value, `0..300`,
/// multiples of 1000, `3i + 1` for 129 values, the first 1000 squares, and
/// the two extremes. Three unsorted ones follow.
pub open spec fn conformance_case(k: int) -> (u32, Seq<u32>) {
    let u = CASE_UNIVERSE;
    if k == 0 {
        (u, Seq::empty())
    } else if k == 1 {
        (u, seq![0u32])
    } else if k == 2 {
        (u, seq![(u - 1) as u32])
    } else if k == 3 {
        (u, Seq::new(300, |i: int| i as u32))
    } else if k == 4 {
        (u, Seq::new(300, |i: int| (i * 1000) as u32))
    } else if k == 5 {
        (u, Seq::new(129, |i: int| (i * 3 + 1) as u32))
    } else if k == 6 {
        (u, Seq::new(1000, |i: int| (i * i) as u32))
    } else if k == 7 {
        (u, seq![0u32, (u - 1) as u32])
    } else if k == 8 {
        (u32::MAX, seq![u32::MAX, 0u32, u32::MAX, 1u32])
    } else if k == 9 {
        (u32::MAX, Seq::new(500, |i: int| ((i as u32).wrapping_mul(2_654_435_761) % 1000) as u32))
    } else {
        (16, Seq::new(1000, |i: int| 3u32))
    }
}

/// Lists every adapter's unit tests run through [`check`]: empty,
/// singleton, dense run, sparse, a block-boundary straddler, and max-value
/// edge cases. The first eight are sorted; unsorted adds three more.
pub fn conformance_cases(kind: Kind) -> (r: Vec<(u32, Vec<u32>)>)
    ensures
        r@.len() == (if kind == Kind::Sorted {
            8int
        } else {
            11int
        }),
        forall|k: int| 0 <= k < 8 ==> #[trigger] sorted_case(r@[k]),
        forall|k: int| 0 <= k < r@.len() ==> fits_memory(#[trigger] r@[k].1@.len()),
        forall|k: int|
            0 <= k < r@.len() ==> #[trigger] r@[k].0 == conformance_case(k).0 && r@[k].1@
                == conformance_case(k).1,
{
    let universe: u32 = CASE_UNIVERSE;
    let mut cases: Vec<(u32, Vec<u32>)> = Vec::new();
    cases.push((universe, Vec::new()));
    cases.push((universe, vec![0]));
    cases.push((universe, vec![universe - 1]));
    let dense = arithmetic(300, 1, 0);
    proof {
        lemma_arithmetic_sorted(dense@, 300, 1, 0);
    }
    cases.push((universe, dense));
    let sparse = arithmetic(300, 1000, 0);
    proof {
        lemma_arithmetic_sorted(sparse@, 300, 1000, 0);
    }
    cases.push((universe, sparse));
    let straddle = arithmetic(129, 3, 1);
    proof {
        lemma_arithmetic_sorted(straddle@, 129, 3, 1);
    }
    cases.push((universe, straddle));
    cases.push((universe, squares(1000)));
    cases.push((universe, vec![0, universe - 1]));
    proof {
        assert(sorted_case(cases@[0]));
        assert(sorted_case(cases@[1]));
        assert(sorted_case(cases@[2]));
        assert(sorted_case(cases@[3]));
        assert(sorted_case(cases@[4]));
        assert(sorted_case(cases@[5]));
        assert(sorted_case(cases@[6]));
        assert(sorted_case(cases@[7]));
        assert(cases@[0].1@ =~= conformance_case(0).1);
        assert(cases@[1].1@ =~= conformance_case(1).1);
        assert(cases@[2].1@ =~= conformance_case(2).1);
        assert(cases@[3].1@ =~= conformance_case(3).1);
        assert(cases@[4].1@ =~= conformance_case(4).1);
        assert(cases@[5].1@ =~= conformance_case(5).1);
        assert(cases@[6].1@ =~= conformance_case(6).1);
        assert(cases@[7].1@ =~= conformance_case(7).1);
    }
    let ghost sorted_cases = cases@;
    if kind == Kind::Unsorted {
        cases.push((u32::MAX, vec![u32::MAX, 0, u32::MAX, 1]));
        let mut scrambled: Vec<u32> = Vec::new();
        let mut i: u32 = 0;
        while i < 500
            invariant
                i <= 500,
                scrambled@.len() == i,
                forall|j: int| 0 <= j < i ==> #[trigger] scrambled@[j] == conformance_case(9).1[j],
            decreases 500 - i,
        {
            scrambled.push(i.wrapping_mul(2_654_435_761) % 1000);
            i = i + 1;
        }
        cases.push((u32::MAX, scrambled));
        let mut threes: Vec<u32> = Vec::new();
        let mut i: u32 = 0;
        while i < 1000
            invariant
                i <= 1000,
                threes@.len() == i,
                forall|j: int| 0 <= j < i ==> #[trigger] threes@[j] == 3,
            decreases 1000 - i,
        {
            threes.push(3);
            i = i + 1;
        }
        cases.push((16, threes));
        proof {
            assert(cases@[8].1@ =~= conformance_case(8).1);
            assert(cases@[9].1@ =~= conformance_case(9).1);
            assert(cases@[10].1@ =~= conformance_case(10).1);
        }
    }
    proof {
        assert forall|k: int| 0 <= k < cases@.len() implies #[trigger] cases@[k].0 == conformance_case(
            k,
        ).0 && cases@[k].1@ == conformance_case(k).1 by {
            if k < 8 {
                assert(cases@[k] == sorted_cases[k]);
            }
        }
    }
    cases
}

/// Run [`check`] on every conformance case the codec accepts: all sorted
/// cases, and the unsorted ones unless the codec is sorted-only. Returns
/// the first failure, which a lossless codec never produces.
pub fn conformance<C: Codec + ?Sized>(codec: &C) -> (r: Result<(), CheckError>)
    ensures
        codec.lossless() ==> r is Ok,
{
    let cases = conformance_cases(Kind::Sorted);
    let mut k: usize = 0;
    while k < cases.len()
        invariant
            k <= cases@.len(),
            cases@.len() == 8,
            forall|j: int| 0 <= j < 8 ==> #[trigger] sorted_case(cases@[j]),
        decreases cases@.len() - k,
    {
        let (universe, list) = (cases[k].0, &cases[k].1);
        assert(sorted_case(cases@[k as int]));
        match check(codec, Kind::Sorted, universe, list.as_slice()) {
            Ok(()) => {},
            Err(e) => {
                return Err(e);
            },
        }
        k = k + 1;
    }
    if !codec.caps().sorted_only {
        let cases = conformance_cases(Kind::Unsorted);
        let mut k: usize = 0;
        while k < cases.len()
            invariant
                k <= cases@.len(),
                !codec.spec_caps().sorted_only,
                forall|j: int| 0 <= j < cases@.len() ==> fits_memory(#[trigger] cases@[j].1@.len()),
            decreases cases@.len() - k,
        {
            let (universe, list) = (cases[k].0, &cases[k].1);
            assert(fits_memory(cases@[k as int].1@.len()));
            match check(codec, Kind::Unsorted, universe, list.as_slice()) {
                Ok(()) => {},
                Err(e) => {
                    return Err(e);
                },
            }
            k = k + 1;
        }
    }
    Ok(())
}

/// The names of the codecs of [`all`], in report order.
pub open spec fn codec_labels() -> Seq<Seq<u8>> {
    seq![
        raw::Raw.label(),
        vbyte::VByte.label(),
        bp128::Bp128.label(),
        bp128skip::Bp128Skip.label(),
        fastpfor::FastPFor.label(),
        lucene_pfor::LucenePFor.label(),
        streamvbyte::StreamVByte.label(),
        roaring_bitmap::Roaring.label(),
        eliasfano::EliasFanoCodec.label(),
        pef::Pef.label(),
    ]
}

/// How many codecs [`all`] lists.
pub const CODEC_COUNT: usize = 10;

/// The codec at position `k` of [`all`], `None` past the end.
fn codec_at(k: usize) -> (r: Option<Box<dyn Codec>>)
    ensures
        r is Some <==> k < CODEC_COUNT,
        r matches Some(c) ==> c.label() == codec_labels()[k as int],
{
    if k == 0 {
        let c: Box<dyn Codec> = Box::new(raw::Raw);
        let r = Some(c);
        assert(r matches Some(x) ==> x.label() == codec_labels()[0]);
        return r;
    }
    if k == 1 {
        let c: Box<dyn Codec> = Box::new(vbyte::VByte);
        let r = Some(c);
        assert(r matches Some(x) ==> x.label() == codec_labels()[1]);
        return r;
    }
    if k == 2 {
        let c: Box<dyn Codec> = Box::new(bp128::Bp128);
        let r = Some(c);
        assert(r matches Some(x) ==> x.label() == codec_labels()[2]);
        return r;
    }
    if k == 3 {
        let c: Box<dyn Codec> = Box::new(bp128skip::Bp128Skip);
        let r = Some(c);
        assert(r matches Some(x) ==> x.label() == codec_labels()[3]);
        return r;
    }
    if k == 4 {
        let c: Box<dyn Codec> = Box::new(fastpfor::FastPFor);
        let r = Some(c);
        assert(r matches Some(x) ==> x.label() == codec_labels()[4]);
        return r;
    }
    if k == 5 {
        let c: Box<dyn Codec> = Box::new(lucene_pfor::LucenePFor);
        let r = Some(c);
        assert(r matches Some(x) ==> x.label() == codec_labels()[5]);
        return r;
    }
    if k == 6 {
        let c: Box<dyn Codec> = Box::new(streamvbyte::StreamVByte);
        let r = Some(c);
        assert(r matches Some(x) ==> x.label() == codec_labels()[6]);
        return r;
    }
    if k == 7 {
        let c: Box<dyn Codec> = Box::new(roaring_bitmap::Roaring);
        let r = Some(c);
        assert(r matches Some(x) ==> x.label() == codec_labels()[7]);
        return r;
    }
    if k == 8 {
        let c: Box<dyn Codec> = Box::new(eliasfano::EliasFanoCodec);
        let r = Some(c);
        assert(r matches Some(x) ==> x.label() == codec_labels()[8]);
        return r;
    }
    if k == 9 {
        let c: Box<dyn Codec> = Box::new(pef::Pef);
        let r = Some(c);
        assert(r matches Some(x) ==> x.label() == codec_labels()[9]);
        return r;
    }
    None
}

/// Every codec the harness knows, in report order. Reference codecs first.
pub fn all() -> (r: Vec<Box<dyn Codec>>)
    ensures
        r@.len() == CODEC_COUNT,
{
    vec![
        codec_at(0).unwrap(),
        codec_at(1).unwrap(),
        codec_at(2).unwrap(),
        codec_at(3).unwrap(),
        codec_at(4).unwrap(),
        codec_at(5).unwrap(),
        codec_at(6).unwrap(),
        codec_at(7).unwrap(),
        codec_at(8).unwrap(),
        codec_at(9).unwrap(),
    ]
}

/// Whether two byte strings are equal.
fn same_bytes(a: &[u8], b: &[u8]) -> (r: bool)
    ensures
        r == (a@ == b@),
{
    if a.len() != b.len() {
        return false;
    }
    let mut i: usize = 0;
    while i < a.len()
        invariant
            a@.len() == b@.len(),
            i <= a@.len(),
            forall|j: int| 0 <= j < i ==> a@[j] == b@[j],
        decreases a@.len() - i,
    {
        if a[i] != b[i] {
            return false;
        }
        i = i + 1;
    }
    assert(a@ =~= b@);
    true
}

/// The codec of [`all`] with this name, if there is one.
pub fn by_name(name: &str) -> (r: Option<Box<dyn Codec>>)
    ensures
        r is Some <==> codec_labels().contains(name.spec_bytes()),
        r matches Some(c) ==> c.label() == name.spec_bytes(),
{
    let want = name.as_bytes();
    let mut k: usize = 0;
    while k < CODEC_COUNT
        invariant
            k <= CODEC_COUNT,
            forall|j: int| 0 <= j < k ==> codec_labels()[j] != name.spec_bytes(),
            want@ == name.spec_bytes(),
        decreases CODEC_COUNT - k,
    {
        let r = codec_at(k);
        if let Some(c) = r {
            let nm = c.name();
            if same_bytes(nm.as_bytes(), want) {
                assert(c.label() == name.spec_bytes());
                let r = Some(c);
                assert(r matches Some(x) ==> x.label() == name.spec_bytes());
                return r;
            }
        }
        k = k + 1;
    }
    proof {
        if codec_labels().contains(name.spec_bytes()) {
            let j = choose|j: int| 0 <= j < codec_labels().len() && codec_labels()[j] == name.spec_bytes();
            assert(codec_labels()[j] != name.spec_bytes());
        }
    }
    None
}

} // verus!
