//! `streamvbyte64` crate's `Coder1234`: byte-aligned variable-length coding
//! (1/2/3/4-byte values) in groups of four, tag stream followed by data
//! stream. The coder only takes whole groups, so lists are padded to a
//! multiple of four (with the last value, so sorted padding deltas are
//! zero) and the padding is dropped on decode. Sorted lists use the crate's
//! delta mode from 0. The tag length follows from `n`, so no header.

use vstd::prelude::*;
use vstd::string::StringSliceAdditionalSpecFns;

use streamvbyte64::{Coder, Coder1234};

use super::{accepts, Caps, Codec, Cursor, Prepared};
use crate::stream::Kind;

verus! {

/// Tag and data bytes `Coder1234::encode` writes for `values`.
pub uninterp spec fn svb_encoded(values: Seq<u32>) -> (Seq<u8>, Seq<u8>);

/// Tag and data bytes `Coder1234::encode_deltas` writes for `values` from `initial`.
pub uninterp spec fn svb_encoded_deltas(initial: u32, values: Seq<u32>) -> (Seq<u8>, Seq<u8>);

/// Values `Coder1234::decode` produces from tag and data bytes.
pub uninterp spec fn svb_decoded(tags: Seq<u8>, data: Seq<u8>) -> Seq<u32>;

/// Values `Coder1234::decode_deltas` produces from `initial`, tag and data bytes.
pub uninterp spec fn svb_decoded_deltas(initial: u32, tags: Seq<u8>, data: Seq<u8>) -> Seq<u32>;

/// Calls `Coder1234::encode` into buffers of the crate's own maximum size
/// and keeps the data bytes it reports written. Claims: one tag byte per
/// four values, the bytes are `svb_encoded(values)`, and decoding them
/// gives the values back.
#[verifier::external_body]
fn svb_encode(values: &[u32]) -> (r: (Vec<u8>, Vec<u8>))
    requires
        values@.len() % 4 == 0,
    ensures
        (r.0@, r.1@) == svb_encoded(values@),
        r.0@.len() == values@.len() / 4,
        svb_decoded(r.0@, r.1@) == values@,
{
    let coder = Coder1234::new();
    let (tag_len, data_len) = Coder1234::max_compressed_bytes(values.len());
    let mut tags = vec![0u8; tag_len];
    let mut data = vec![0u8; data_len];
    let written = coder.encode(values, &mut tags, &mut data);
    data.truncate(written);
    (tags, data)
}

/// Calls `Coder1234::encode_deltas` like [`svb_encode`]. Claims the same,
/// with the deltas taken from `initial`.
#[verifier::external_body]
fn svb_encode_deltas(initial: u32, values: &[u32]) -> (r: (Vec<u8>, Vec<u8>))
    requires
        values@.len() % 4 == 0,
    ensures
        (r.0@, r.1@) == svb_encoded_deltas(initial, values@),
        r.0@.len() == values@.len() / 4,
        svb_decoded_deltas(initial, r.0@, r.1@) == values@,
{
    let coder = Coder1234::new();
    let (tag_len, data_len) = Coder1234::max_compressed_bytes(values.len());
    let mut tags = vec![0u8; tag_len];
    let mut data = vec![0u8; data_len];
    let written = coder.encode_deltas(initial, values, &mut tags, &mut data);
    data.truncate(written);
    (tags, data)
}

/// Calls `Coder1234::decode` into a vector of four values per tag. Taken
/// only on bytes that `encode` wrote. Claims: the result is
/// `svb_decoded(tags, data)`, four values per tag byte.
#[verifier::external_body]
fn svb_decode(tags: &[u8], data: &[u8]) -> (values: Vec<u32>)
    requires
        exists|v: Seq<u32>| v.len() % 4 == 0 && svb_encoded(v) == (tags@, data@),
    ensures
        values@ == svb_decoded(tags@, data@),
        values@.len() == 4 * tags@.len(),
{
    let coder = Coder1234::new();
    let mut values = vec![0u32; tags.len() * 4];
    let _ = coder.decode(tags, data, &mut values);
    values
}

/// Calls `Coder1234::decode_deltas` like [`svb_decode`].
#[verifier::external_body]
fn svb_decode_deltas(initial: u32, tags: &[u8], data: &[u8]) -> (values: Vec<u32>)
    requires
        exists|v: Seq<u32>| v.len() % 4 == 0 && svb_encoded_deltas(initial, v) == (tags@, data@),
    ensures
        values@ == svb_decoded_deltas(initial, tags@, data@),
        values@.len() == 4 * tags@.len(),
{
    let coder = Coder1234::new();
    let mut values = vec![0u32; tags.len() * 4];
    let _ = coder.decode_deltas(initial, tags, data, &mut values);
    values
}

/// Groups of four a list of `n` values takes.
pub open spec fn groups(n: nat) -> nat {
    ((n + 3) / 4) as nat
}

/// The list padded to whole groups with its last value (zero when empty).
pub open spec fn padded(list: Seq<u32>) -> Seq<u32> {
    Seq::new(
        4 * groups(list.len()),
        |i: int|
            if i < list.len() {
                list[i]
            } else if list.len() > 0 {
                list.last()
            } else {
                0
            },
    )
}

/// The tag and data streams the coder writes for a list.
pub open spec fn svb_streams(kind: Kind, list: Seq<u32>) -> (Seq<u8>, Seq<u8>) {
    match kind {
        Kind::Sorted => svb_encoded_deltas(0, padded(list)),
        Kind::Unsorted => svb_encoded(padded(list)),
    }
}

fn pad(list: &[u32]) -> (r: Vec<u32>)
    requires
        list@.len() <= u32::MAX,
        list@.len() * 8 <= usize::MAX,
    ensures
        r@ == padded(list@),
{
    let len = list.len();
    let n_groups = len / 4 + if len % 4 == 0 {
        0
    } else {
        1
    };
    let target = n_groups * 4;
    let fill = if len > 0 {
        list[len - 1]
    } else {
        0
    };
    let mut r: Vec<u32> = Vec::new();
    let mut i: usize = 0;
    while i < target
        invariant
            len == list@.len(),
            len <= u32::MAX,
            target == 4 * groups(len as nat),
            fill == (if len > 0 {
                list@.last()
            } else {
                0
            }),
            i <= target,
            r@ == padded(list@).subrange(0, i as int),
        decreases target - i,
    {
        let v = if i < len {
            list[i]
        } else {
            fill
        };
        r.push(v);
        proof {
            assert(r@ =~= padded(list@).subrange(0, i + 1));
        }
        i = i + 1;
    }
    assert(padded(list@).subrange(0, target as int) =~= padded(list@));
    r
}

pub struct StreamVByte;

impl Codec for StreamVByte {
    open spec fn spec_caps(&self) -> Caps {
        Caps { sorted_only: false, streaming_encoder: true, seek: false, random_access: false }
    }

    open spec fn in_place(&self) -> bool {
        true
    }

    open spec fn encoding(&self, kind: Kind, universe: u32, list: Seq<u32>) -> Seq<u8> {
        svb_streams(kind, list).0 + svb_streams(kind, list).1
    }

    open spec fn decodable(&self, kind: Kind, universe: u32, n: nat, buf: Seq<u8>) -> bool {
        exists|list: Seq<u32>|
            accepts(self.spec_caps(), kind, universe, list) && list.len() == n && buf
                == #[trigger] self.encoding(kind, universe, list) && svb_streams(kind, list).0.len()
                == groups(n)
    }

    open spec fn decoding(&self, kind: Kind, universe: u32, n: nat, buf: Seq<u8>) -> Seq<u32> {
        let g = groups(n) as int;
        let tags = buf.subrange(0, g);
        let data = buf.subrange(g, buf.len() as int);
        let values = match kind {
            Kind::Sorted => svb_decoded_deltas(0, tags, data),
            Kind::Unsorted => svb_decoded(tags, data),
        };
        values.subrange(0, n as int)
    }

    open spec fn get_any(&self) -> bool {
        true
    }

    open spec fn lossless(&self) -> bool {
        true
    }

    fn is_lossless(&self) -> (r: bool) {
        true
    }

    open spec fn label(&self) -> Seq<u8> {
        "streamvbyte".spec_bytes()
    }

    fn name(&self) -> (r: &'static str) {
        "streamvbyte"
    }

    fn caps(&self) -> (c: Caps) {
        Caps { sorted_only: false, streaming_encoder: true, seek: false, random_access: false }
    }

    fn encode(&self, kind: Kind, universe: u32, list: &[u32], out: &mut Vec<u8>) {
        let input = pad(list);
        let (tags, data) = match kind {
            Kind::Sorted => svb_encode_deltas(0, input.as_slice()),
            Kind::Unsorted => svb_encode(input.as_slice()),
        };
        let ghost start = out@;
        let mut i: usize = 0;
        while i < tags.len()
            invariant
                i <= tags@.len(),
                out@ == start + tags@.subrange(0, i as int),
            decreases tags@.len() - i,
        {
            out.push(tags[i]);
            proof {
                assert(out@ =~= start + tags@.subrange(0, i + 1));
            }
            i = i + 1;
        }
        let mut j: usize = 0;
        while j < data.len()
            invariant
                j <= data@.len(),
                out@ == start + tags@ + data@.subrange(0, j as int),
            decreases data@.len() - j,
        {
            out.push(data[j]);
            proof {
                assert(out@ =~= start + tags@ + data@.subrange(0, j + 1));
            }
            j = j + 1;
        }
        proof {
            assert(tags@.subrange(0, tags@.len() as int) =~= tags@);
            assert(data@.subrange(0, data@.len() as int) =~= data@);
            let n = list@.len();
            let buf = self.encoding(kind, universe, list@);
            assert(buf == tags@ + data@);
            assert(groups(n) == tags@.len());
            assert(buf.subrange(0, tags@.len() as int) =~= tags@);
            assert(buf.subrange(tags@.len() as int, buf.len() as int) =~= data@);
            assert(padded(list@).subrange(0, n as int) =~= list@);
            assert(accepts(self.spec_caps(), kind, universe, list@));
        }
    }

    fn decode(&self, kind: Kind, universe: u32, n: usize, buf: &[u8], out: &mut Vec<u32>) {
        let ghost list = choose|list: Seq<u32>|
            accepts(self.spec_caps(), kind, universe, list) && list.len() == n && buf@
                == #[trigger] self.encoding(kind, universe, list) && svb_streams(kind, list).0.len()
                == groups(n as nat);
        let n_groups = n / 4 + if n % 4 == 0 {
            0
        } else {
            1
        };
        let ghost streams = svb_streams(kind, list);
        proof {
            assert(n_groups == groups(n as nat));
            assert(padded(list).len() % 4 == 0);
        }
        let tags = slice_to(buf, n_groups);
        let data = slice_from(buf, n_groups);
        proof {
            assert(tags@ =~= streams.0) by {
                assert(buf@ == streams.0 + streams.1);
            }
            assert(data@ =~= streams.1);
        }
        let values = match kind {
            Kind::Sorted => svb_decode_deltas(0, tags, data),
            Kind::Unsorted => svb_decode(tags, data),
        };
        let ghost start = out@;
        let mut i: usize = 0;
        while i < n
            invariant
                i <= n,
                n <= values@.len(),
                out@ == start + values@.subrange(0, i as int),
            decreases n - i,
        {
            out.push(values[i]);
            proof {
                assert(out@ =~= start + values@.subrange(0, i + 1));
            }
            i = i + 1;
        }
    }

    fn aux_bytes(&self, universe: u32, n: usize, buf: &[u8]) -> (r: Option<usize>)
        ensures
            r is None,
    {
        None
    }

    fn cursor<'a>(&self, universe: u32, n: usize, buf: &'a [u8]) -> (r: Option<
        Box<dyn Cursor + 'a>,
    >) {
        None
    }

    fn get(&self, kind: Kind, universe: u32, n: usize, buf: &[u8], i: usize) -> (r: Option<u32>) {
        None
    }

    fn open<'a>(&self, kind: Kind, universe: u32, n: usize, buf: &'a [u8]) -> (r: Option<
        Box<dyn Prepared + 'a>,
    >) {
        None
    }
}

/// The first `k` bytes of `buf`.
fn slice_to(buf: &[u8], k: usize) -> (r: &[u8])
    requires
        k <= buf@.len(),
    ensures
        r@ == buf@.subrange(0, k as int),
{
    &buf[0..k]
}

/// The bytes of `buf` from `k` on.
fn slice_from(buf: &[u8], k: usize) -> (r: &[u8])
    requires
        k <= buf@.len(),
    ensures
        r@ == buf@.subrange(k as int, buf@.len() as int),
{
    &buf[k..buf.len()]
}

} // verus!
