//! `fastpfor` crate's pure-Rust `FastPFor128` (128-value patched
//! frame-of-reference blocks, `VariableByte` tail). Sorted lists are
//! delta-coded to gaps (`gap - 1`, first value as-is) before being handed to
//! the crate. The crate writes its own value-count header word; it is left
//! intact. Words are stored little-endian.

use vstd::prelude::*;
use vstd::string::StringSliceAdditionalSpecFns;

use fastpfor::{AnyLenCodec, FastPFor128};

use super::vbyte::{gaps, lemma_undelta_gaps, lemma_undelta_len, lemma_undelta_step, undelta, undelta_fits, undelta_u32};
use super::{accepts, Caps, Codec, Cursor, Prepared};
use crate::bytes::{le_words, lemma_le_words_of, read_words_le, words_le, write_words_le};
use crate::stream::{strictly_increasing, Kind};

verus! {

/// The words `FastPFor128::encode` appends to an empty vector for `input`.
pub uninterp spec fn fastpfor_words(input: Seq<u32>) -> Seq<u32>;

/// The values `FastPFor128::decode` appends to an empty vector for `words`
/// and the expected count `n`.
pub uninterp spec fn fastpfor_values(words: Seq<u32>, n: u32) -> Seq<u32>;

/// Calls `FastPFor128::encode` on a fresh codec and vector; the error it may
/// return is dropped, as the words written so far are kept. Claims: the
/// result is `fastpfor_words(input)`, and (as the crate documents for its
/// composite codecs) decoding it with the input's length gives the input back.
#[verifier::external_body]
fn fastpfor_encode(input: &[u32]) -> (words: Vec<u32>)
    ensures
        words@ == fastpfor_words(input@),
        input@.len() <= u32::MAX ==> fastpfor_values(words@, input@.len() as u32) == input@,
{
    let mut words = Vec::new();
    let mut codec = FastPFor128::default();
    let _ = codec.encode(input, &mut words);
    words
}

/// Calls `FastPFor128::decode` with `Some(n)` on a fresh codec and vector;
/// the error it may return is dropped. Taken only on the words of an
/// encoded list of `n` values. Claims: the result is
/// `fastpfor_values(words, n)`, which is that list.
#[verifier::external_body]
fn fastpfor_decode(words: &[u32], n: u32) -> (values: Vec<u32>)
    requires
        exists|s: Seq<u32>| s.len() == n && fastpfor_words(s) == words@,
    ensures
        values@ == fastpfor_values(words@, n),
        forall|s: Seq<u32>| s.len() == n && fastpfor_words(s) == words@ ==> values@ == s,
{
    let mut values = Vec::new();
    let mut codec = FastPFor128::default();
    let _ = codec.decode(words, &mut values, Some(n));
    values
}

/// What the crate is handed: the gaps of a sorted list, or the list.
pub open spec fn fastpfor_input(kind: Kind, list: Seq<u32>) -> Seq<u32> {
    match kind {
        Kind::Sorted => gaps(list),
        Kind::Unsorted => list,
    }
}

/// The list back from the crate's values: running sums for sorted lists.
pub open spec fn fastpfor_output(kind: Kind, values: Seq<u32>) -> Seq<u32> {
    match kind {
        Kind::Sorted => undelta_u32(values),
        Kind::Unsorted => values,
    }
}

/// The gaps of a strictly increasing list.
pub fn gap_list(list: &[u32]) -> (r: Vec<u32>)
    requires
        strictly_increasing(list@),
    ensures
        r@ == gaps(list@),
{
    let mut r: Vec<u32> = Vec::new();
    let mut i: usize = 0;
    while i < list.len()
        invariant
            strictly_increasing(list@),
            i <= list@.len(),
            r@ == gaps(list@).subrange(0, i as int),
        decreases list@.len() - i,
    {
        let g = if i == 0 {
            list[0]
        } else {
            assert(list@[i - 1] < list@[i as int]);
            list[i] - list[i - 1] - 1
        };
        r.push(g);
        proof {
            assert(r@ =~= gaps(list@).subrange(0, i + 1));
        }
        i = i + 1;
    }
    assert(gaps(list@).subrange(0, list@.len() as int) =~= gaps(list@));
    r
}

/// Running sums of gaps (first value as-is, then each gap plus one added),
/// appended to `out`.
pub fn push_undelta(gs: &[u32], out: &mut Vec<u32>)
    requires
        undelta_fits(gs@),
    ensures
        final(out)@ == old(out)@ + undelta_u32(gs@),
{
    let ghost start = out@;
    proof {
        lemma_undelta_len(gs@);
    }
    let mut prev: u32 = 0;
    let mut i: usize = 0;
    while i < gs.len()
        invariant
            undelta_fits(gs@),
            undelta(gs@).len() == gs@.len(),
            i <= gs@.len(),
            i > 0 ==> prev == undelta(gs@)[i - 1],
            out@ == start + undelta_u32(gs@).subrange(0, i as int),
        decreases gs@.len() - i,
    {
        proof {
            lemma_undelta_step(gs@, i as int);
            assert(undelta(gs@)[i as int] <= u32::MAX);
        }
        let v = if i == 0 {
            gs[0]
        } else {
            prev + gs[i] + 1
        };
        out.push(v);
        proof {
            assert(out@ =~= start + undelta_u32(gs@).subrange(0, i + 1));
        }
        prev = v;
        i = i + 1;
    }
    assert(undelta_u32(gs@).subrange(0, gs@.len() as int) =~= undelta_u32(gs@));
}

pub struct FastPFor;

impl Codec for FastPFor {
    open spec fn spec_caps(&self) -> Caps {
        Caps { sorted_only: false, streaming_encoder: true, seek: false, random_access: false }
    }

    open spec fn in_place(&self) -> bool {
        true
    }

    open spec fn encoding(&self, kind: Kind, universe: u32, list: Seq<u32>) -> Seq<u8> {
        words_le(fastpfor_words(fastpfor_input(kind, list)))
    }

    open spec fn decodable(&self, kind: Kind, universe: u32, n: nat, buf: Seq<u8>) -> bool {
        exists|list: Seq<u32>|
            accepts(self.spec_caps(), kind, universe, list) && list.len() == n && buf
                == #[trigger] self.encoding(kind, universe, list)
    }

    open spec fn decoding(&self, kind: Kind, universe: u32, n: nat, buf: Seq<u8>) -> Seq<u32> {
        fastpfor_output(kind, fastpfor_values(le_words(buf), n as u32))
    }

    open spec fn get_any(&self) -> bool {
        true
    }

    open spec fn lossless(&self) -> bool {
        true
    }

    fn is_lossless(&self) -> (r: bool) {
        true
    }

    open spec fn label(&self) -> Seq<u8> {
        "fastpfor128".spec_bytes()
    }

    fn name(&self) -> (r: &'static str) {
        "fastpfor128"
    }

    fn caps(&self) -> (c: Caps) {
        Caps { sorted_only: false, streaming_encoder: true, seek: false, random_access: false }
    }

    fn encode(&self, kind: Kind, universe: u32, list: &[u32], out: &mut Vec<u8>) {
        let words = match kind {
            Kind::Sorted => {
                let g = gap_list(list);
                fastpfor_encode(g.as_slice())
            },
            Kind::Unsorted => fastpfor_encode(list),
        };
        assert(words@ == fastpfor_words(fastpfor_input(kind, list@)));
        write_words_le(out, words.as_slice());
        proof {
            lemma_le_words_of(words@);
            let n = list@.len();
            if kind == Kind::Sorted {
                lemma_undelta_gaps(list@);
            }
            assert(self.encoding(kind, universe, list@) == words_le(words@));
            assert(accepts(self.spec_caps(), kind, universe, list@));
            assert(self.decoding(kind, universe, n, self.encoding(kind, universe, list@))
                == list@);
        }
    }

    fn decode(&self, kind: Kind, universe: u32, n: usize, buf: &[u8], out: &mut Vec<u32>) {
        let ghost list = choose|list: Seq<u32>|
            accepts(self.spec_caps(), kind, universe, list) && list.len() == n && buf@
                == #[trigger] self.encoding(kind, universe, list);
        let words = read_words_le(buf);
        proof {
            lemma_le_words_of(fastpfor_words(fastpfor_input(kind, list)));
            assert(fastpfor_input(kind, list).len() == n);
        }
        let values = fastpfor_decode(words.as_slice(), n as u32);
        assert(values@ == fastpfor_input(kind, list));
        match kind {
            Kind::Sorted => {
                proof {
                    lemma_undelta_gaps(list);
                }
                push_undelta(values.as_slice(), out);
            },
            Kind::Unsorted => {
                let ghost start = out@;
                let mut i: usize = 0;
                while i < values.len()
                    invariant
                        i <= values@.len(),
                        out@ == start + values@.subrange(0, i as int),
                    decreases values@.len() - i,
                {
                    out.push(values[i]);
                    proof {
                        assert(out@ =~= start + values@.subrange(0, i + 1));
                    }
                    i = i + 1;
                }
                assert(values@.subrange(0, values@.len() as int) =~= values@);
            },
        }
    }

    fn aux_bytes(&self, universe: u32, n: usize, buf: &[u8]) -> (r: Option<usize>)
        ensures
            r is None,
    {
        None
    }

    fn cursor<'a>(&self, universe: u32, n: usize, buf: &'a [u8]) -> (r: Option<
        Box<dyn Cursor + 'a>,
    >) {
        None
    }

    fn get(&self, kind: Kind, universe: u32, n: usize, buf: &[u8], i: usize) -> (r: Option<u32>) {
        None
    }

    fn open<'a>(&self, kind: Kind, universe: u32, n: usize, buf: &'a [u8]) -> (r: Option<
        Box<dyn Prepared + 'a>,
    >) {
        None
    }
}

} // verus!
