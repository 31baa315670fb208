//! `bp128` bitpacking with a skip table: one `(last_value, byte_offset)` pair
//! per full 128-block lets a cursor binary-search the table and decode only
//! the block it lands in, and `get` decode a single block by ordinal. The
//! packed section is byte-identical to `bp128`; the table is the only extra
//! bytes (`aux_bytes` reports it). This is the measurement of what a skip
//! structure costs in bits and buys in seek time.
//!
//! Layout, little-endian:
//!
//! 1. Skip table, one entry per full 128-block: `last_value: u32` (the
//!    block's final element, the delta base the next block needs) then
//!    `byte_offset: u32` (offset of the block's `num_bits` byte from the
//!    start of the packed section). Unsorted lists store `last_value = 0`;
//!    only `byte_offset` is used (for `get`).
//! 2. Packed section: exactly the `bp128` payload.
//!
//! The table length is `n / 128`, known from `n`, so it needs no header. A
//! list shorter than one block has an empty table and is byte-identical to
//! `bp128`. An offset is stored as a `u32`; a packed section longer than
//! that can address is still decoded, queried and sought correctly, by
//! stepping over the blocks instead of reading the table.

use vstd::prelude::*;
use vstd::string::StringSliceAdditionalSpecFns;

use super::bp128::{
    block_offset, bp128_decodable, bp128_decoding, bp128_encoding, bp_new, lemma_block_last,
    lemma_blocks_ok_mono, lemma_parse_blocks_end, lemma_parse_blocks_mono, parse_blocks,
    payload_cursor, put_tail_values, skip_entries, unpack_block, Bp128, BLOCK_LEN,
};
use super::{accepts, Caps, Codec, Cursor, Prepared};
use crate::bytes::{get_u32_le, lemma_le_words_of, lemma_words_le, le_words, push_u32_le, sub_slice, u32_at, words_le};
use crate::leb128::{lemma_parse_vints_bounds, parse_vints};
use crate::stream::{strictly_increasing, Kind};

verus! {

/// Bytes of the skip table for `n` values.
pub open spec fn table_len(n: nat) -> nat {
    8 * (n / 128)
}

/// The bytes `encode` appends: the table over the `bp128` packed section,
/// then the section.
pub open spec fn skip_encoding(kind: Kind, list: Seq<u32>) -> Seq<u8> {
    let payload = bp128_encoding(kind, list);
    words_le(skip_entries(kind, list.len() / 128, payload)) + payload
}

/// A decodable buffer: a table that indexes the packed section after it,
/// and a decodable section.
pub open spec fn skip_decodable(kind: Kind, n: nat, buf: Seq<u8>) -> bool {
    let t = table_len(n) as int;
    &&& t <= buf.len()
    &&& bp128_decodable(kind, n, buf.skip(t))
    &&& buf.take(t) == words_le(skip_entries(kind, n / 128, buf.skip(t)))
}

/// The values of the packed section.
pub open spec fn skip_decoding(kind: Kind, n: nat, buf: Seq<u8>) -> Seq<u32> {
    bp128_decoding(kind, n, buf.skip(table_len(n) as int))
}

/// The packed section is exactly the `bp128` encoding and the table is
/// the only extra bytes, eight per full block; a list shorter than one
/// block has no table and is byte-identical to `bp128`.
pub proof fn lemma_section_is_bp128(kind: Kind, list: Seq<u32>)
    ensures
        skip_encoding(kind, list).len() == table_len(list.len()) + bp128_encoding(kind, list).len(),
        skip_encoding(kind, list).skip(table_len(list.len()) as int) == bp128_encoding(kind, list),
        list.len() < 128 ==> skip_encoding(kind, list) == bp128_encoding(kind, list),
{
    let payload = bp128_encoding(kind, list);
    let e = skip_entries(kind, list.len() / 128, payload);
    lemma_words_le(e);
    assert(skip_encoding(kind, list).skip(table_len(list.len()) as int) =~= payload);
    if list.len() < 128 {
        assert(e =~= Seq::<u32>::empty());
        assert(words_le(e) =~= Seq::<u8>::empty());
        assert(skip_encoding(kind, list) =~= payload);
    }
}

/// Reading entry `j` of a table written from `e`.
proof fn lemma_entry(e: Seq<u32>, table: Seq<u8>, j: int)
    requires
        table == words_le(e),
        0 <= j < e.len(),
    ensures
        u32_at(table, 4 * j) == e[j],
        table.len() == 4 * e.len(),
{
    lemma_words_le(e);
    lemma_le_words_of(e);
    assert(le_words(table)[j] == u32_at(table, 4 * j));
}

/// Value `i` of a full block: the block's offset and delta base come from
/// the table (or from stepping over the blocks before it, when the packed
/// section is too long for the table's offsets), and only that block is
/// unpacked.
#[verifier::rlimit(40)]
#[verifier::spinoff_prover]
fn get_in_block(kind: Kind, n: usize, buf: &[u8], i: usize) -> (r: u32)
    requires
        skip_decodable(kind, n as nat, buf@),
        i < 128 * (n / 128),
    ensures
        r == skip_decoding(kind, n as nat, buf@)[i as int],
{
    let k = n / BLOCK_LEN;
    let t = k * 8;
    let table = sub_slice(buf, 0, t);
    let payload = sub_slice(buf, t, buf.len());
    let ghost pl = payload@;
    let ghost e = skip_entries(kind, k as nat, pl);
    let ghost d = bp128_decoding(kind, n as nat, pl);
    assert(payload@ =~= buf@.skip(t as int));
    assert(table@ =~= buf@.take(t as int));
    let exact = payload.len() <= 0xffff_ffff;
    let b = i / BLOCK_LEN;
    proof {
        lemma_words_le(e);
        lemma_blocks_ok_mono(kind, pl, b as nat, k as nat);
        lemma_parse_blocks_end(kind, pl, b as nat);
    }
    let off = if exact {
        proof {
            lemma_entry(e, table@, 2 * b + 1);
        }
        get_u32_le(table, 8 * b + 4) as usize
    } else {
        block_offset(kind, payload, Ghost(k as nat), b)
    };
    let initial = match kind {
        Kind::Sorted => {
            if b > 0 {
                proof {
                    lemma_entry(e, table@, 2 * (b - 1));
                }
                Some(get_u32_le(table, 8 * (b - 1)))
            } else {
                None
            }
        },
        Kind::Unsorted => None,
    };
    let (block, _) = unpack_block(&bp_new(), kind, payload, off, initial, Ghost(k as nat), Ghost(b as nat));
    proof {
        lemma_block_last(kind, n as nat, pl, b as nat);
        lemma_parse_blocks_mono(kind, pl, (b + 1) as nat, k as nat);
        let p = parse_blocks(kind, pl, k as nat).0;
        assert(block@[(i % 128) as int] == p[i as int]);
        assert(d.subrange(0, 128 * k as int)[i as int] == d[i as int]);
    }
    block[i % BLOCK_LEN]
}

/// Value `i` of the VByte tail: the tail's start and delta base come from
/// the last table entry (or from stepping over the blocks), and the tail is
/// read up to it.
#[verifier::rlimit(40)]
#[verifier::spinoff_prover]
fn get_in_tail(kind: Kind, n: usize, buf: &[u8], i: usize) -> (r: u32)
    requires
        skip_decodable(kind, n as nat, buf@),
        128 * (n / 128) <= i < n,
    ensures
        r == skip_decoding(kind, n as nat, buf@)[i as int],
{
    let k = n / BLOCK_LEN;
    let t = k * 8;
    let full = k * BLOCK_LEN;
    let table = sub_slice(buf, 0, t);
    let payload = sub_slice(buf, t, buf.len());
    let ghost pl = payload@;
    let ghost e = skip_entries(kind, k as nat, pl);
    let ghost d = bp128_decoding(kind, n as nat, pl);
    assert(payload@ =~= buf@.skip(t as int));
    assert(table@ =~= buf@.take(t as int));
    let exact = payload.len() <= 0xffff_ffff;
    proof {
        lemma_words_le(e);
        lemma_parse_blocks_end(kind, pl, k as nat);
    }
    let ghost before = parse_blocks(kind, pl, k as nat).0;
    let tail_at = if k == 0 {
        0
    } else if exact {
        proof {
            lemma_entry(e, table@, 2 * (k - 1) + 1);
            lemma_blocks_ok_mono(kind, pl, (k - 1) as nat, k as nat);
            lemma_parse_blocks_end(kind, pl, (k - 1) as nat);
        }
        let o = get_u32_le(table, 8 * (k - 1) + 4) as usize;
        o + 1 + 16 * (payload[o] as usize)
    } else {
        block_offset(kind, payload, Ghost(k as nat), k)
    };
    let last = if k > 0 {
        match kind {
            Kind::Sorted => {
                proof {
                    lemma_entry(e, table@, 2 * (k - 1));
                    lemma_block_last(kind, n as nat, pl, (k - 1) as nat);
                }
                get_u32_le(table, 8 * (k - 1))
            },
            Kind::Unsorted => 0,
        }
    } else {
        0
    };
    let tail = sub_slice(payload, tail_at, payload.len());
    let mut vals: Vec<u32> = Vec::new();
    let ghost g = parse_vints(tail@, (n % 128) as nat).unwrap().0;
    proof {
        lemma_parse_vints_bounds(tail@, (n % 128) as nat);
        super::bp128::lemma_tail_values_len(kind, before, g);
    }
    put_tail_values(kind, tail, n % BLOCK_LEN, k, last, Ghost(before), &mut vals);
    proof {
        assert(d == before + super::bp128::tail_values(kind, before, g));
        assert(d[i as int] == vals@[i - full]);
    }
    vals[i - full]
}

pub struct Bp128Skip;

impl Codec for Bp128Skip {
    open spec fn spec_caps(&self) -> Caps {
        Caps { sorted_only: false, streaming_encoder: true, seek: true, random_access: true }
    }

    open spec fn in_place(&self) -> bool {
        true
    }

    open spec fn encoding(&self, kind: Kind, universe: u32, list: Seq<u32>) -> Seq<u8> {
        skip_encoding(kind, list)
    }

    open spec fn decodable(&self, kind: Kind, universe: u32, n: nat, buf: Seq<u8>) -> bool {
        skip_decodable(kind, n, buf)
    }

    open spec fn decoding(&self, kind: Kind, universe: u32, n: nat, buf: Seq<u8>) -> Seq<u32> {
        skip_decoding(kind, n, buf)
    }

    open spec fn get_any(&self) -> bool {
        true
    }

    open spec fn lossless(&self) -> bool {
        true
    }

    fn is_lossless(&self) -> (r: bool) {
        true
    }

    open spec fn label(&self) -> Seq<u8> {
        "bp128-skip".spec_bytes()
    }

    fn name(&self) -> (r: &'static str) {
        "bp128-skip"
    }

    fn caps(&self) -> (c: Caps) {
        Caps { sorted_only: false, streaming_encoder: true, seek: true, random_access: true }
    }

    fn encode(&self, kind: Kind, universe: u32, list: &[u32], out: &mut Vec<u8>) {
        let ghost start = out@;
        let mut packed: Vec<u8> = Vec::new();
        Bp128.encode(kind, universe, list, &mut packed);
        let ghost payload = packed@;
        let n = list.len();
        let k = n / BLOCK_LEN;
        let ghost e = skip_entries(kind, k as nat, payload);
        proof {
            lemma_parse_blocks_end(kind, payload, k as nat);
        }
        let mut byte: usize = 0;
        let mut b: usize = 0;
        let plen = packed.len();
        assert(e.subrange(0, 0) =~= Seq::<u32>::empty());
        while b < k
            invariant
                b <= k,
                plen == payload.len(),
                k == n / 128,
                n == list@.len(),
                payload == packed@,
                payload == bp128_encoding(kind, list@),
                bp128_decodable(kind, n as nat, payload),
                bp128_decoding(kind, n as nat, payload) == list@,
                e == skip_entries(kind, k as nat, payload),
                byte == parse_blocks(kind, payload, b as nat).1,
                out@ == start + words_le(e.subrange(0, 2 * b)),
            decreases k - b,
        {
            proof {
                lemma_block_last(kind, n as nat, payload, b as nat);
                lemma_blocks_ok_mono(kind, payload, (b + 1) as nat, k as nat);
                lemma_parse_blocks_end(kind, payload, b as nat);
            }
            let last = match kind {
                Kind::Sorted => {
                    assert(128 * b + 127 < n) by (nonlinear_arith)
                        requires
                            b < k,
                            k == n / 128,
                    ;
                    list[BLOCK_LEN * b + 127]
                },
                Kind::Unsorted => 0,
            };
            push_u32_le(out, last);
            let off: u32 = #[verifier::truncate] (byte as u32);
            push_u32_le(out, off);
            proof {
                let s2 = e.subrange(0, 2 * b + 2);
                let s1 = e.subrange(0, 2 * b + 1);
                assert(s2.drop_last() =~= s1);
                assert(s1.drop_last() =~= e.subrange(0, 2 * b));
                assert(e[2 * b as int] == last);
                assert(e[2 * b + 1] == off);
                assert(words_le(s1) == words_le(e.subrange(0, 2 * b)) + crate::bytes::le_u32(last));
                assert(words_le(s2) == words_le(s1) + crate::bytes::le_u32(off));
            }
            let w = packed[byte];
            byte = byte + 1 + 16 * (w as usize);
            b = b + 1;
        }
        crate::bytes::append_bytes(out, packed.as_slice());
        proof {
            assert(e.subrange(0, 2 * k as int) =~= e);
            let enc = skip_encoding(kind, list@);
            assert(out@ =~= start + enc);
            lemma_words_le(e);
            let t = table_len(n as nat) as int;
            assert(enc.skip(t) =~= payload);
            assert(enc.take(t) =~= words_le(e));
        }
    }

    fn decode(&self, kind: Kind, universe: u32, n: usize, buf: &[u8], out: &mut Vec<u32>) {
        let t = n / BLOCK_LEN * 8;
        let payload = sub_slice(buf, t, buf.len());
        assert(payload@ =~= buf@.skip(t as int));
        Bp128.decode(kind, universe, n, payload, out);
    }

    fn aux_bytes(&self, universe: u32, n: usize, buf: &[u8]) -> (r: Option<usize>)
        ensures
            r == Some(table_len(n as nat) as usize),
    {
        Some(n / BLOCK_LEN * 8)
    }

    fn cursor<'a>(&self, universe: u32, n: usize, buf: &'a [u8]) -> (r: Option<
        Box<dyn Cursor + 'a>,
    >) {
        let t = n / BLOCK_LEN * 8;
        let table = sub_slice(buf, 0, t);
        let payload = sub_slice(buf, t, buf.len());
        assert(payload@ =~= buf@.skip(t as int));
        assert(table@ =~= buf@.take(t as int));
        let exact = payload.len() <= 0xffff_ffff;
        payload_cursor(payload, table, n, exact)
    }

    fn get(&self, kind: Kind, universe: u32, n: usize, buf: &[u8], i: usize) -> (r: Option<u32>) {
        if i >= n {
            return None;
        }
        if i < n / BLOCK_LEN * BLOCK_LEN {
            Some(get_in_block(kind, n, buf, i))
        } else {
            Some(get_in_tail(kind, n, buf, i))
        }
    }

    fn open<'a>(&self, kind: Kind, universe: u32, n: usize, buf: &'a [u8]) -> (r: Option<
        Box<dyn Prepared + 'a>,
    >) {
        None
    }
}

} // verus!
