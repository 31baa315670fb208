//! The `.ipb` dataset file, little-endian:
//!
//! ```text
//! magic  b"IPB1"
//! u32    metadata JSON length, then that many bytes of JSON (the `Meta`)
//! u32    list count
//! per list: u32 len, then len × u32 values
//! ```
//!
//! The format is deliberately trivial so a harness in any language can read
//! it. This module frames and reads back the bytes; the metadata JSON is
//! carried as bytes, and turning it into a `Meta` is the caller's part.

use vstd::prelude::*;

use crate::bytes::{get_u32_le, le_u32, le_words, lemma_le_words_of, lemma_u32_roundtrip, lemma_words_le, push_u32_le, read_words_le, sub_slice, u32_at, words_le, write_words_le};

verus! {

/// The four magic bytes, `b"IPB1"`.
pub open spec fn magic() -> Seq<u8> {
    seq![0x49u8, 0x50u8, 0x42u8, 0x31u8]
}

/// Every list as its length then its values.
pub open spec fn lists_bytes(lists: Seq<Vec<u32>>) -> Seq<u8>
    decreases lists.len(),
{
    if lists.len() == 0 {
        Seq::empty()
    } else {
        lists_bytes(lists.drop_last()) + le_u32(lists.last()@.len() as u32) + words_le(
            lists.last()@,
        )
    }
}

/// The whole file for a metadata blob and the lists.
pub open spec fn ipb_bytes(meta: Seq<u8>, lists: Seq<Vec<u32>>) -> Seq<u8> {
    magic() + le_u32(meta.len() as u32) + meta + le_u32(lists.len() as u32) + lists_bytes(lists)
}

/// What the format can hold: lengths that fit a `u32`.
pub open spec fn fits_format(meta: Seq<u8>, lists: Seq<Vec<u32>>) -> bool {
    &&& meta.len() <= u32::MAX
    &&& lists.len() <= u32::MAX
    &&& forall|i: int| 0 <= i < lists.len() ==> #[trigger] lists[i]@.len() <= u32::MAX
}

/// Why a file could not be read.
#[derive(Clone, Copy, Debug, PartialEq, Eq, Structural)]
pub enum IpbError {
    /// The first four bytes are not `b"IPB1"`.
    NotIpb,
    /// The bytes end before what the lengths announce.
    Truncated,
}

/// Where the metadata lies, `[8, 8 + len)`, when the header is whole.
pub open spec fn head_of(b: Seq<u8>) -> Result<(int, int), IpbError> {
    if b.len() < 4 {
        Err(IpbError::Truncated)
    } else if b.take(4) != magic() {
        Err(IpbError::NotIpb)
    } else if b.len() < 8 || b.len() < 8 + u32_at(b, 4) {
        Err(IpbError::Truncated)
    } else {
        Ok((8, 8 + u32_at(b, 4)))
    }
}

/// The first `k` lists starting at `pos`, and where they end.
pub open spec fn lists_at(b: Seq<u8>, pos: int, k: nat) -> Option<(Seq<Seq<u32>>, int)>
    decreases k,
{
    if k == 0 {
        Some((Seq::empty(), pos))
    } else {
        match lists_at(b, pos, (k - 1) as nat) {
            Some((ls, p)) => if p + 4 <= b.len() && p + 4 + 4 * u32_at(b, p) <= b.len() {
                let end = p + 4 + 4 * u32_at(b, p);
                Some((ls.push(le_words(b.subrange(p + 4, end))), end))
            } else {
                None
            },
            None => None,
        }
    }
}

/// The lists after the metadata that ends at `pos`: a count, then that
/// many lists.
pub open spec fn body_of(b: Seq<u8>, pos: int) -> Option<Seq<Seq<u32>>> {
    if 0 <= pos && pos + 4 <= b.len() {
        match lists_at(b, pos + 4, u32_at(b, pos) as nat) {
            Some((ls, _)) => Some(ls),
            None => None,
        }
    } else {
        None
    }
}

/// The views of the lists.
pub open spec fn views(lists: Seq<Vec<u32>>) -> Seq<Seq<u32>> {
    lists.map_values(|l: Vec<u32>| l@)
}

/// Lay out a dataset file: the metadata blob and every list.
pub fn frame(meta: &[u8], lists: &Vec<Vec<u32>>) -> (r: Vec<u8>)
    requires
        fits_format(meta@, lists@),
    ensures
        r@ == ipb_bytes(meta@, lists@),
{
    let mut out: Vec<u8> = Vec::new();
    out.push(0x49);
    out.push(0x50);
    out.push(0x42);
    out.push(0x31);
    assert(out@ =~= magic());
    push_u32_le(&mut out, meta.len() as u32);
    crate::bytes::append_bytes(&mut out, meta);
    push_u32_le(&mut out, lists.len() as u32);
    let ghost head = out@;
    let mut i: usize = 0;
    assert(lists@.take(0) =~= Seq::<Vec<u32>>::empty());
    while i < lists.len()
        invariant
            i <= lists@.len(),
            fits_format(meta@, lists@),
            out@ == head + lists_bytes(lists@.take(i as int)),
        decreases lists@.len() - i,
    {
        let list = &lists[i];
        push_u32_le(&mut out, list.len() as u32);
        write_words_le(&mut out, list.as_slice());
        proof {
            let t = lists@.take(i + 1);
            assert(t.drop_last() =~= lists@.take(i as int));
            assert(t.last() == lists@[i as int]);
        }
        i = i + 1;
    }
    assert(lists@.take(lists@.len() as int) =~= lists@);
    out
}

/// Check the header and find the metadata blob: `Ok((start, end))`.
pub fn parse_head(b: &[u8]) -> (r: Result<(usize, usize), IpbError>)
    ensures
        match head_of(b@) {
            Ok((s, e)) => r == Ok::<(usize, usize), IpbError>((s as usize, e as usize)),
            Err(e) => r == Err::<(usize, usize), IpbError>(e),
        },
{
    if b.len() < 4 {
        return Err(IpbError::Truncated);
    }
    if !(b[0] == 0x49 && b[1] == 0x50 && b[2] == 0x42 && b[3] == 0x31) {
        proof {
            if b@.take(4) == magic() {
                assert(b@.take(4)[0] == b@[0]);
                assert(b@.take(4)[1] == b@[1]);
                assert(b@.take(4)[2] == b@[2]);
                assert(b@.take(4)[3] == b@[3]);
            }
        }
        return Err(IpbError::NotIpb);
    }
    assert(b@.take(4) =~= magic());
    if b.len() < 8 {
        return Err(IpbError::Truncated);
    }
    let len = get_u32_le(b, 4) as usize;
    if b.len() - 8 < len {
        return Err(IpbError::Truncated);
    }
    Ok((8, 8 + len))
}

/// Read the list count at `pos` and the lists after it.
pub fn parse_lists(b: &[u8], pos: usize) -> (r: Result<Vec<Vec<u32>>, IpbError>)
    ensures
        match body_of(b@, pos as int) {
            Some(ls) => r matches Ok(v) && views(v@) == ls,
            None => r == Err::<Vec<Vec<u32>>, IpbError>(IpbError::Truncated),
        },
{
    if pos > b.len() || b.len() - pos < 4 {
        return Err(IpbError::Truncated);
    }
    let count = get_u32_le(b, pos);
    let mut lists: Vec<Vec<u32>> = Vec::new();
    let mut p: usize = pos + 4;
    let mut k: u32 = 0;
    while k < count
        invariant
            k <= count,
            count == u32_at(b@, pos as int),
            pos + 4 <= b@.len(),
            lists_at(b@, pos + 4, k as nat) == Some((views(lists@), p as int)),
            p <= b@.len(),
        decreases count - k,
    {
        if b.len() - p < 4 {
            proof {
                lemma_lists_at_stuck(b@, pos + 4, k as nat, count as nat);
            }
            return Err(IpbError::Truncated);
        }
        let len = get_u32_le(b, p) as usize;
        if (b.len() - p - 4) / 4 < len {
            proof {
                lemma_lists_at_stuck(b@, pos + 4, k as nat, count as nat);
            }
            return Err(IpbError::Truncated);
        }
        let end = p + 4 + 4 * len;
        let list = read_words_le(sub_slice(b, p + 4, end));
        let ghost prev = lists@;
        lists.push(list);
        proof {
            assert(views(lists@) =~= views(prev).push(list@));
        }
        p = end;
        k = k + 1;
    }
    Ok(lists)
}

/// Once the first `k` lists leave no room for the next, none of the
/// longer prefixes parse either.
proof fn lemma_lists_at_stuck(b: Seq<u8>, pos: int, k: nat, count: nat)
    requires
        k < count,
        lists_at(b, pos, k) matches Some((_, p)) && !(p + 4 <= b.len() && p + 4 + 4 * u32_at(b, p)
            <= b.len()),
    ensures
        lists_at(b, pos, count) is None,
    decreases count - k,
{
    if k + 1 < count {
        lemma_lists_at_none(b, pos, (k + 1) as nat, count);
    }
}

/// A prefix that does not parse stops every longer one.
proof fn lemma_lists_at_none(b: Seq<u8>, pos: int, k: nat, count: nat)
    requires
        k <= count,
        lists_at(b, pos, k) is None,
    ensures
        lists_at(b, pos, count) is None,
    decreases count - k,
{
    if k < count {
        lemma_lists_at_none(b, pos, (k + 1) as nat, count);
    }
}

/// Reading the lists back from the bytes after `pre`: the first `k` lists
/// of `lists_bytes` parse as their values.
proof fn lemma_lists_read_written(pre: Seq<u8>, lists: Seq<Vec<u32>>, post: Seq<u8>, k: nat)
    requires
        k <= lists.len(),
        forall|i: int| 0 <= i < lists.len() ==> #[trigger] lists[i]@.len() <= u32::MAX,
    ensures
        lists_at(pre + lists_bytes(lists) + post, pre.len() as int, k) == Some(
            (views(lists.take(k as int)), (pre.len() + lists_bytes(lists.take(k as int)).len()) as int),
        ),
    decreases k,
{
    let b = pre + lists_bytes(lists) + post;
    if k == 0 {
        assert(views(lists.take(0)) =~= Seq::<Seq<u32>>::empty());
        assert(lists.take(0) =~= Seq::<Vec<u32>>::empty());
    } else {
        lemma_lists_read_written(pre, lists, post, (k - 1) as nat);
        let t = lists.take(k as int);
        let s = lists.take(k - 1);
        assert(t.drop_last() =~= s);
        let p: int = (pre.len() + lists_bytes(s).len()) as int;
        let l = lists[k - 1];
        lemma_lists_bytes_prefix(lists, k as nat);
        // lists_bytes(lists) = lists_bytes(t) + rest, and lists_bytes(t) = lists_bytes(s) + len + words
        let head = le_u32(l@.len() as u32);
        let w = words_le(l@);
        lemma_words_le(l@);
        assert(lists_bytes(t) == lists_bytes(s) + head + w);
        let rest = lists_bytes(lists).subrange(lists_bytes(t).len() as int, lists_bytes(lists).len() as int);
        assert(b =~= pre + lists_bytes(s) + head + w + rest + post);
        assert(b.subrange(p, p + 4) =~= head);
        lemma_u32_roundtrip(l@.len() as u32, b, p);
        assert(b.subrange(p + 4, p + 4 + 4 * (l@.len() as int)) =~= w);
        lemma_le_words_of(l@);
        assert(views(t) =~= views(s).push(l@));
    }
}

/// `lists_bytes` of a prefix is a prefix of `lists_bytes`.
proof fn lemma_lists_bytes_prefix(lists: Seq<Vec<u32>>, k: nat)
    requires
        k <= lists.len(),
    ensures
        lists_bytes(lists.take(k as int)).len() <= lists_bytes(lists).len(),
        lists_bytes(lists) == lists_bytes(lists.take(k as int)) + lists_bytes(lists).subrange(
            lists_bytes(lists.take(k as int)).len() as int,
            lists_bytes(lists).len() as int,
        ),
    decreases lists.len() - k,
{
    if k == lists.len() {
        assert(lists.take(k as int) =~= lists);
    } else {
        let d = lists.drop_last();
        lemma_lists_bytes_prefix(d, k);
        assert(d.take(k as int) =~= lists.take(k as int));
    }
}

/// What [`frame`] writes, [`parse_head`] and [`parse_lists`] read back: the
/// metadata blob where the header points, and the lists.
pub proof fn lemma_read_written(meta: Seq<u8>, lists: Seq<Vec<u32>>)
    requires
        fits_format(meta, lists),
    ensures
        head_of(ipb_bytes(meta, lists)) == Ok::<(int, int), IpbError>((8, 8 + meta.len() as int)),
        ipb_bytes(meta, lists).subrange(8, 8 + meta.len() as int) == meta,
        body_of(ipb_bytes(meta, lists), 8 + meta.len() as int) == Some(views(lists)),
{
    let b = ipb_bytes(meta, lists);
    let ml = le_u32(meta.len() as u32);
    let cl = le_u32(lists.len() as u32);
    assert(b =~= magic() + ml + meta + cl + lists_bytes(lists));
    assert(b.take(4) =~= magic());
    assert(b.subrange(4, 8) =~= ml);
    lemma_u32_roundtrip(meta.len() as u32, b, 4);
    assert(b.subrange(8, 8 + meta.len() as int) =~= meta);
    let pre = magic() + ml + meta + cl;
    assert(b.subrange(8 + meta.len() as int, 12 + meta.len() as int) =~= cl);
    lemma_u32_roundtrip(lists.len() as u32, b, 8 + meta.len() as int);
    assert(b =~= pre + lists_bytes(lists) + Seq::<u8>::empty());
    lemma_lists_read_written(pre, lists, Seq::empty(), lists.len());
    assert(lists.take(lists.len() as int) =~= lists);
}

} // verus!
