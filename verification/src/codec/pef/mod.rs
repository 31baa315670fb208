//! Fixed-128 partitioned Elias-Fano over strictly increasing `u32` lists.
//!
//! The upper level is a plain Elias-Fano sequence of partition maxima. A
//! packed two-bit directory selects all-ones, bitmap, or Elias-Fano storage
//! for each partition, and a fixed-width packed offset directory addresses
//! the byte-aligned payloads. Queries read those structures directly from
//! the encoded bytes; no select index or owning prepared form is built.

use vstd::prelude::*;
use vstd::string::StringSliceAdditionalSpecFns;

use super::{Caps, Codec, Cursor, Prepared};
use crate::stream::Kind;

pub mod bits;
pub mod cursor;
pub mod encode;
pub mod format;
pub mod layout;
pub mod rank;
pub mod read;

use self::format::{pef_bytes, pef_valid};
use self::layout::lemma_pef_injective;

verus! {

/// The list whose encoding `buf` is, among valid lists of `n` values.
pub open spec fn pef_decodes(universe: u32, n: nat, buf: Seq<u8>, l: Seq<u32>) -> bool {
    pef_valid(universe, l) && l.len() == n && buf == pef_bytes(universe, l)
}

pub struct Pef;

impl Codec for Pef {
    open spec fn spec_caps(&self) -> Caps {
        Caps { sorted_only: true, streaming_encoder: false, seek: true, random_access: true }
    }

    open spec fn in_place(&self) -> bool {
        true
    }

    open spec fn encoding(&self, kind: Kind, universe: u32, list: Seq<u32>) -> Seq<u8> {
        pef_bytes(universe, list)
    }

    /// The buffers that are the encoding of a list.
    open spec fn decodable(&self, kind: Kind, universe: u32, n: nat, buf: Seq<u8>) -> bool {
        exists|l: Seq<u32>| pef_decodes(universe, n, buf, l)
    }

    /// The list a buffer encodes (there is at most one).
    open spec fn decoding(&self, kind: Kind, universe: u32, n: nat, buf: Seq<u8>) -> Seq<u32> {
        choose|l: Seq<u32>| pef_decodes(universe, n, buf, l)
    }

    open spec fn get_any(&self) -> bool {
        true
    }

    open spec fn lossless(&self) -> bool {
        true
    }

    fn is_lossless(&self) -> (r: bool) {
        true
    }

    open spec fn label(&self) -> Seq<u8> {
        "pef".spec_bytes()
    }

    fn name(&self) -> (r: &'static str) {
        "pef"
    }

    fn caps(&self) -> (c: Caps) {
        Caps { sorted_only: true, streaming_encoder: false, seek: true, random_access: true }
    }

    fn encode(&self, kind: Kind, universe: u32, list: &[u32], out: &mut Vec<u8>) {
        encode::encode_list(universe, list, out);
        proof {
            assert(pef_decodes(universe, list@.len(), pef_bytes(universe, list@), list@));
            let l = choose|l: Seq<u32>| pef_decodes(
                universe,
                list@.len(),
                pef_bytes(universe, list@),
                l,
            );
            lemma_pef_injective(universe, l, list@);
        }
    }

    fn decode(&self, kind: Kind, universe: u32, n: usize, buf: &[u8], out: &mut Vec<u32>) {
        let ghost l = choose|l: Seq<u32>| pef_decodes(universe, n as nat, buf@, l);
        read::decode_list(universe, n, buf, out, Ghost(l));
    }

    fn aux_bytes(&self, universe: u32, n: usize, buf: &[u8]) -> (r: Option<usize>)
        ensures
            r is None,
    {
        None
    }

    fn cursor<'a>(&self, universe: u32, n: usize, buf: &'a [u8]) -> (r: Option<
        Box<dyn Cursor + 'a>,
    >) {
        let ghost l = choose|l: Seq<u32>| pef_decodes(universe, n as nat, buf@, l);
        cursor::open_cursor(universe, n, buf, Ghost(l))
    }

    fn get(&self, kind: Kind, universe: u32, n: usize, buf: &[u8], i: usize) -> (r: Option<u32>) {
        let ghost l = choose|l: Seq<u32>| pef_decodes(universe, n as nat, buf@, l);
        read::get_value(universe, n, buf, i, Ghost(l))
    }

    fn open<'a>(&self, kind: Kind, universe: u32, n: usize, buf: &'a [u8]) -> (r: Option<
        Box<dyn Prepared + 'a>,
    >) {
        None
    }
}

} // verus!
