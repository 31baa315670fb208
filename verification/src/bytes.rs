//! Little-endian fixed-width integers in byte buffers.

use vstd::prelude::*;

verus! {

/// The four little-endian bytes of `v`.
pub open spec fn le_u32(v: u32) -> Seq<u8> {
    seq![v as u8, (v >> 8) as u8, (v >> 16) as u8, (v >> 24) as u8]
}

/// The eight little-endian bytes of `v`.
pub open spec fn le_u64(v: u64) -> Seq<u8> {
    seq![
        v as u8,
        (v >> 8) as u8,
        (v >> 16) as u8,
        (v >> 24) as u8,
        (v >> 32) as u8,
        (v >> 40) as u8,
        (v >> 48) as u8,
        (v >> 56) as u8,
    ]
}

/// The `u32` stored little-endian at `s[p..p + 4]`.
pub open spec fn u32_at(s: Seq<u8>, p: int) -> u32 {
    (s[p] as u32) | ((s[p + 1] as u32) << 8u32) | ((s[p + 2] as u32) << 16u32) | ((s[p + 3] as u32)
        << 24u32)
}

/// The `u64` stored little-endian at `s[p..p + 8]`.
pub open spec fn u64_at(s: Seq<u8>, p: int) -> u64 {
    (s[p] as u64) | ((s[p + 1] as u64) << 8u64) | ((s[p + 2] as u64) << 16u64) | ((s[p + 3] as u64)
        << 24u64) | ((s[p + 4] as u64) << 32u64) | ((s[p + 5] as u64) << 40u64) | ((s[p + 6] as u64)
        << 48u64) | ((s[p + 7] as u64) << 56u64)
}

/// The `u16` stored little-endian at `s[p..p + 2]`.
pub open spec fn u16_at(s: Seq<u8>, p: int) -> u16 {
    (s[p] as u16) | ((s[p + 1] as u16) << 8u16)
}

/// Every value of `s` written as four little-endian bytes, in order.
pub open spec fn words_le(s: Seq<u32>) -> Seq<u8>
    decreases s.len(),
{
    if s.len() == 0 {
        Seq::empty()
    } else {
        words_le(s.drop_last()) + le_u32(s.last())
    }
}

/// Reading back four written bytes.
pub proof fn lemma_u32_roundtrip(v: u32, s: Seq<u8>, p: int)
    requires
        0 <= p,
        p + 4 <= s.len(),
        s.subrange(p, p + 4) == le_u32(v),
    ensures
        u32_at(s, p) == v,
{
    assert(s[p] == le_u32(v)[0]);
    assert(s[p + 1] == le_u32(v)[1]);
    assert(s[p + 2] == le_u32(v)[2]);
    assert(s[p + 3] == le_u32(v)[3]);
    let (b0, b1, b2, b3) = (s[p], s[p + 1], s[p + 2], s[p + 3]);
    assert((b0 as u32) | ((b1 as u32) << 8u32) | ((b2 as u32) << 16u32) | ((b3 as u32) << 24u32)
        == v) by (bit_vector)
        requires
            b0 == v as u8,
            b1 == (v >> 8) as u8,
            b2 == (v >> 16) as u8,
            b3 == (v >> 24) as u8,
    ;
}

/// Reading back eight written bytes.
pub proof fn lemma_u64_roundtrip(v: u64, s: Seq<u8>, p: int)
    requires
        0 <= p,
        p + 8 <= s.len(),
        s.subrange(p, p + 8) == le_u64(v),
    ensures
        u64_at(s, p) == v,
{
    let l = le_u64(v);
    assert(s[p] == l[0]);
    assert(s[p + 1] == l[1]);
    assert(s[p + 2] == l[2]);
    assert(s[p + 3] == l[3]);
    assert(s[p + 4] == l[4]);
    assert(s[p + 5] == l[5]);
    assert(s[p + 6] == l[6]);
    assert(s[p + 7] == l[7]);
    let (b0, b1, b2, b3, b4, b5, b6, b7) = (
        s[p],
        s[p + 1],
        s[p + 2],
        s[p + 3],
        s[p + 4],
        s[p + 5],
        s[p + 6],
        s[p + 7],
    );
    assert((b0 as u64) | ((b1 as u64) << 8u64) | ((b2 as u64) << 16u64) | ((b3 as u64) << 24u64)
        | ((b4 as u64) << 32u64) | ((b5 as u64) << 40u64) | ((b6 as u64) << 48u64) | ((b7 as u64)
        << 56u64) == v) by (bit_vector)
        requires
            b0 == v as u8,
            b1 == (v >> 8) as u8,
            b2 == (v >> 16) as u8,
            b3 == (v >> 24) as u8,
            b4 == (v >> 32) as u8,
            b5 == (v >> 40) as u8,
            b6 == (v >> 48) as u8,
            b7 == (v >> 56) as u8,
    ;
}

/// `words_le` has four bytes per value, and value `i` sits at `4 i`.
pub proof fn lemma_words_le(s: Seq<u32>)
    ensures
        words_le(s).len() == 4 * s.len(),
        forall|i: int|
            0 <= i < s.len() ==> #[trigger] words_le(s).subrange(4 * i, 4 * i + 4) == le_u32(s[i]),
    decreases s.len(),
{
    if s.len() > 0 {
        let t = s.drop_last();
        lemma_words_le(t);
        let w = words_le(s);
        assert(w == words_le(t) + le_u32(s.last()));
        assert forall|i: int| 0 <= i < s.len() implies #[trigger] w.subrange(4 * i, 4 * i + 4)
            == le_u32(s[i]) by {
            if i < t.len() {
                assert(w.subrange(4 * i, 4 * i + 4) =~= words_le(t).subrange(4 * i, 4 * i + 4));
                assert(t[i] == s[i]);
            } else {
                assert(w.subrange(4 * i, 4 * i + 4) =~= le_u32(s.last()));
            }
        }
    }
}

/// Append the four little-endian bytes of `v`.
pub fn push_u32_le(out: &mut Vec<u8>, v: u32)
    ensures
        final(out)@ == old(out)@ + le_u32(v),
{
    out.push(v as u8);
    out.push((v >> 8) as u8);
    out.push((v >> 16) as u8);
    out.push((v >> 24) as u8);
    assert(final(out)@ =~= old(out)@ + le_u32(v));
}

/// Append the eight little-endian bytes of `v`.
pub fn push_u64_le(out: &mut Vec<u8>, v: u64)
    ensures
        final(out)@ == old(out)@ + le_u64(v),
{
    out.push(v as u8);
    out.push((v >> 8) as u8);
    out.push((v >> 16) as u8);
    out.push((v >> 24) as u8);
    out.push((v >> 32) as u8);
    out.push((v >> 40) as u8);
    out.push((v >> 48) as u8);
    out.push((v >> 56) as u8);
    assert(final(out)@ =~= old(out)@ + le_u64(v));
}

/// The little-endian `u32` at `buf[p..p + 4]`.
pub fn get_u32_le(buf: &[u8], p: usize) -> (r: u32)
    requires
        p + 4 <= buf@.len(),
    ensures
        r == u32_at(buf@, p as int),
{
    (buf[p] as u32) | ((buf[p + 1] as u32) << 8u32) | ((buf[p + 2] as u32) << 16u32) | ((buf[p
        + 3] as u32) << 24u32)
}

/// The little-endian `u64` at `buf[p..p + 8]`.
pub fn get_u64_le(buf: &[u8], p: usize) -> (r: u64)
    requires
        p + 8 <= buf@.len(),
    ensures
        r == u64_at(buf@, p as int),
{
    (buf[p] as u64) | ((buf[p + 1] as u64) << 8u64) | ((buf[p + 2] as u64) << 16u64) | ((buf[p
        + 3] as u64) << 24u64) | ((buf[p + 4] as u64) << 32u64) | ((buf[p + 5] as u64) << 40u64)
        | ((buf[p + 6] as u64) << 48u64) | ((buf[p + 7] as u64) << 56u64)
}

/// The little-endian words of `s`, one per whole four bytes.
pub open spec fn le_words(s: Seq<u8>) -> Seq<u32> {
    Seq::new(s.len() / 4, |i: int| u32_at(s, 4 * i))
}

/// Reading back the words of `words_le(w)` gives `w`.
pub proof fn lemma_le_words_of(w: Seq<u32>)
    ensures
        le_words(words_le(w)) == w,
{
    lemma_words_le(w);
    let s = words_le(w);
    assert forall|i: int| 0 <= i < w.len() implies #[trigger] le_words(s)[i] == w[i] by {
        assert(s.subrange(4 * i, 4 * i + 4) == le_u32(w[i]));
        lemma_u32_roundtrip(w[i], s, 4 * i);
    }
    assert(le_words(s) =~= w);
}

/// Read every whole little-endian word of `buf`.
pub fn read_words_le(buf: &[u8]) -> (r: Vec<u32>)
    ensures
        r@ == le_words(buf@),
{
    let n = buf.len() / 4;
    let mut r: Vec<u32> = Vec::new();
    let mut i: usize = 0;
    while i < n
        invariant
            n == buf@.len() / 4,
            buf@.len() <= usize::MAX,
            i <= n,
            r@ == le_words(buf@).subrange(0, i as int),
        decreases n - i,
    {
        r.push(get_u32_le(buf, 4 * i));
        proof {
            assert(r@ =~= le_words(buf@).subrange(0, i + 1));
        }
        i = i + 1;
    }
    assert(le_words(buf@).subrange(0, n as int) =~= le_words(buf@));
    r
}

/// Append every word of `words` little-endian.
pub fn write_words_le(out: &mut Vec<u8>, words: &[u32])
    ensures
        final(out)@ == old(out)@ + words_le(words@),
{
    let ghost start = out@;
    let mut i: usize = 0;
    while i < words.len()
        invariant
            i <= words@.len(),
            out@ == start + words_le(words@.subrange(0, i as int)),
        decreases words@.len() - i,
    {
        proof {
            assert(words@.subrange(0, i + 1).drop_last() =~= words@.subrange(0, i as int));
        }
        push_u32_le(out, words[i]);
        i = i + 1;
    }
    assert(words@.subrange(0, words@.len() as int) =~= words@);
}

/// Append every byte of `bytes`.
pub fn append_bytes(out: &mut Vec<u8>, bytes: &[u8])
    ensures
        final(out)@ == old(out)@ + bytes@,
{
    let ghost start = out@;
    let mut i: usize = 0;
    while i < bytes.len()
        invariant
            i <= bytes@.len(),
            out@ == start + bytes@.subrange(0, i as int),
        decreases bytes@.len() - i,
    {
        out.push(bytes[i]);
        proof {
            assert(out@ =~= start + bytes@.subrange(0, i + 1));
        }
        i = i + 1;
    }
    assert(bytes@.subrange(0, bytes@.len() as int) =~= bytes@);
}

/// `buf[from..to]`.
pub fn sub_slice(buf: &[u8], from: usize, to: usize) -> (r: &[u8])
    requires
        from <= to <= buf@.len(),
    ensures
        r@ == buf@.subrange(from as int, to as int),
{
    &buf[from..to]
}

} // verus!
