//! The base-128 varint layout shared by the reference VByte codec and
//! Lucene's vint/vlong: seven payload bits per byte, least significant group
//! first, high bit set on every byte but the last.

use vstd::prelude::*;

verus! {

/// The varint bytes of a `u32`.
pub open spec fn vint_bytes(v: u32) -> Seq<u8>
    decreases v,
{
    if v < 0x80 {
        seq![v as u8]
    } else {
        proof {
            lemma_shift7_decreases_u32(v);
        }
        seq![((v & 0x7f) | 0x80) as u8] + vint_bytes(v >> 7)
    }
}

/// The varint bytes of a `u64`.
pub open spec fn vlong_bytes(v: u64) -> Seq<u8>
    decreases v,
{
    if v < 0x80 {
        seq![v as u8]
    } else {
        proof {
            lemma_shift7_decreases_u64(v);
        }
        seq![((v & 0x7f) | 0x80) as u8] + vlong_bytes(v >> 7)
    }
}

/// Payload bits of one varint byte.
pub open spec fn low7(b: u8) -> u8 {
    b & 0x7f
}

/// The `u32` that a run of varint bytes carries: byte `i` contributes its
/// seven payload bits at bit `7 i` (bits past 32 are dropped).
pub open spec fn vint_value(s: Seq<u8>) -> u32
    decreases s.len(),
{
    if s.len() == 0 {
        0
    } else {
        vint_value(s.drop_last()) | ((low7(s.last()) as u32) << ((7 * (s.len() - 1)) as u32))
    }
}

/// The `u64` that a run of varint bytes carries.
pub open spec fn vlong_value(s: Seq<u8>) -> u64
    decreases s.len(),
{
    if s.len() == 0 {
        0
    } else {
        vlong_value(s.drop_last()) | ((low7(s.last()) as u64) << ((7 * (s.len() - 1)) as u64))
    }
}

/// The same value read from the front: first byte's payload, then the
/// rest shifted up by seven.
pub open spec fn vint_value_front(s: Seq<u8>) -> u32
    decreases s.len(),
{
    if s.len() == 0 {
        0
    } else {
        (low7(s[0]) as u32) | (vint_value_front(s.drop_first()) << 7u32)
    }
}

pub open spec fn vlong_value_front(s: Seq<u8>) -> u64
    decreases s.len(),
{
    if s.len() == 0 {
        0
    } else {
        (low7(s[0]) as u64) | (vlong_value_front(s.drop_first()) << 7u64)
    }
}

/// `s` is one complete varint: every byte but the last has its high bit set.
pub open spec fn is_varint(s: Seq<u8>) -> bool {
    &&& s.len() >= 1
    &&& forall|j: int| 0 <= j < s.len() - 1 ==> s[j] >= 0x80
    &&& s.last() < 0x80
}

pub proof fn lemma_shift7_decreases_u32(v: u32)
    requires
        v >= 0x80,
    ensures
        v >> 7 < v,
{
    vstd::arithmetic::power2::lemma2_to64();
    vstd::bits::lemma_u32_shr_is_div(v, 7u32);
}

pub proof fn lemma_shift7_decreases_u64(v: u64)
    requires
        v >= 0x80,
    ensures
        v >> 7 < v,
{
    vstd::arithmetic::power2::lemma2_to64();
    vstd::bits::lemma_u64_shr_is_div(v, 7u64);
}

/// The bytes of `vint_bytes(v)`: a single varint of one to five bytes.
pub proof fn lemma_vint_bytes_shape(v: u32)
    ensures
        is_varint(vint_bytes(v)),
        1 <= vint_bytes(v).len() <= 5,
        v < 0x80 ==> vint_bytes(v).len() == 1,
        v >= 0x80 ==> vint_bytes(v).len() >= 2,
    decreases v,
{
    if v >= 0x80 {
        lemma_shift7_decreases_u32(v);
        lemma_vint_bytes_shape(v >> 7);
        let h = ((v & 0x7f) | 0x80) as u8;
        assert(h >= 0x80) by (bit_vector)
            requires
                h == ((v & 0x7f) | 0x80) as u8,
        ;
        let t = vint_bytes(v >> 7);
        assert(vint_bytes(v) == seq![h] + t);
        assert(((v >> 7) >> 7 >= 0x80 ==> v >= 0x4000) && (v >> 7 >= 0x80 && (v >> 7) >> 7 >= 0x80
            && ((v >> 7) >> 7) >> 7 >= 0x80 && (((v >> 7) >> 7) >> 7) >> 7 >= 0x80 ==> false))
            by (bit_vector);
        lemma_vint_len_bound(v);
    }
}

/// At most five bytes for a `u32`.
proof fn lemma_vint_len_bound(v: u32)
    ensures
        vint_bytes(v).len() <= 5,
{
    let a = v >> 7;
    let b = a >> 7;
    let c = b >> 7;
    let d = c >> 7;
    assert(d < 0x80) by (bit_vector)
        requires
            a == v >> 7,
            b == a >> 7,
            c == b >> 7,
            d == c >> 7,
    ;
    if v >= 0x80 {
        lemma_shift7_decreases_u32(v);
    }
    if a >= 0x80 {
        lemma_shift7_decreases_u32(a);
    }
    if b >= 0x80 {
        lemma_shift7_decreases_u32(b);
    }
    if c >= 0x80 {
        lemma_shift7_decreases_u32(c);
    }
    reveal_with_fuel(vint_bytes, 5);
}

/// The bytes of `vlong_bytes(v)`: a single varint of one to ten bytes.
pub proof fn lemma_vlong_bytes_shape(v: u64)
    ensures
        is_varint(vlong_bytes(v)),
        1 <= vlong_bytes(v).len(),
    decreases v,
{
    if v >= 0x80 {
        lemma_shift7_decreases_u64(v);
        lemma_vlong_bytes_shape(v >> 7);
        let h = ((v & 0x7f) | 0x80) as u8;
        assert(h >= 0x80) by (bit_vector)
            requires
                h == ((v & 0x7f) | 0x80) as u8,
        ;
        assert(vlong_bytes(v) == seq![h] + vlong_bytes(v >> 7));
    }
}

/// Reading front to back and back to front agree on up to five bytes.
pub proof fn lemma_vint_front_back(s: Seq<u8>)
    requires
        s.len() <= 5,
    ensures
        vint_value(s) == vint_value_front(s),
    decreases s.len(),
{
    if s.len() >= 2 {
        let t = s.drop_first();
        lemma_vint_front_back(t);
        lemma_vint_front_back(s.drop_last());
        lemma_vint_front_back(t.drop_last());
        assert(s.drop_last().drop_first() == t.drop_last());
        assert(t.last() == s.last());
        let a = vint_value(t.drop_last());
        let b = low7(s.last()) as u32;
        let l = low7(s[0]) as u32;
        let k = (7 * (t.len() - 1)) as u32;
        assert(k <= 21);
        assert(l | ((a | (b << k)) << 7u32) == (l | (a << 7u32)) | (b << ((k + 7) as u32)))
            by (bit_vector)
            requires
                k <= 21,
        ;
        assert((7 * (s.len() - 1)) as u32 == (k + 7) as u32);
        assert(s.drop_last()[0] == s[0]);
        assert(vint_value_front(s.drop_last()) == l | (vint_value_front(t.drop_last()) << 7u32));
        assert(vint_value(t) == a | (b << k));
        assert(vint_value_front(s) == l | (vint_value_front(t) << 7u32));
        assert(vint_value(s) == vint_value(s.drop_last()) | (b << ((k + 7) as u32)));
    } else if s.len() == 1 {
        assert(s.drop_last() =~= Seq::<u8>::empty());
        assert(s.drop_first() =~= Seq::<u8>::empty());
        assert(vint_value(s.drop_last()) == 0);
        assert(vint_value_front(s.drop_first()) == 0);
        assert(s.last() == s[0]);
        assert(s.drop_last().len() == 0);
        assert(s.drop_first().len() == 0);
        let l = low7(s[0]) as u32;
        assert(0u32 | (l << 0u32) == l | (0u32 << 7u32)) by (bit_vector);
    }
}

pub proof fn lemma_vlong_front_back(s: Seq<u8>)
    requires
        s.len() <= 10,
    ensures
        vlong_value(s) == vlong_value_front(s),
    decreases s.len(),
{
    if s.len() >= 2 {
        let t = s.drop_first();
        lemma_vlong_front_back(t);
        lemma_vlong_front_back(s.drop_last());
        lemma_vlong_front_back(t.drop_last());
        assert(s.drop_last().drop_first() == t.drop_last());
        assert(t.last() == s.last());
        let a = vlong_value(t.drop_last());
        let b = low7(s.last()) as u64;
        let l = low7(s[0]) as u64;
        let k = (7 * (t.len() - 1)) as u64;
        assert(k <= 56);
        assert(l | ((a | (b << k)) << 7u64) == (l | (a << 7u64)) | (b << ((k + 7) as u64)))
            by (bit_vector)
            requires
                k <= 56,
        ;
        assert((7 * (s.len() - 1)) as u64 == (k + 7) as u64);
        assert(s.drop_last()[0] == s[0]);
        assert(vlong_value_front(s.drop_last()) == l | (vlong_value_front(t.drop_last()) << 7u64));
        assert(vlong_value(t) == a | (b << k));
        assert(vlong_value_front(s) == l | (vlong_value_front(t) << 7u64));
        assert(vlong_value(s) == vlong_value(s.drop_last()) | (b << ((k + 7) as u64)));
    } else if s.len() == 1 {
        assert(s.drop_last() =~= Seq::<u8>::empty());
        assert(s.drop_first() =~= Seq::<u8>::empty());
        assert(vlong_value(s.drop_last()) == 0);
        assert(vlong_value_front(s.drop_first()) == 0);
        assert(s.last() == s[0]);
        assert(s.drop_last().len() == 0);
        assert(s.drop_first().len() == 0);
        let l = low7(s[0]) as u64;
        assert(0u64 | (l << 0u64) == l | (0u64 << 7u64)) by (bit_vector);
    }
}

/// Reading back the bytes of `vint_bytes(v)` gives `v`.
pub proof fn lemma_vint_roundtrip(v: u32)
    ensures
        vint_value(vint_bytes(v)) == v,
    decreases v,
{
    lemma_vint_bytes_shape(v);
    lemma_vint_front_back(vint_bytes(v));
    lemma_vint_front_roundtrip(v);
}

proof fn lemma_vint_front_roundtrip(v: u32)
    ensures
        vint_value_front(vint_bytes(v)) == v,
    decreases v,
{
    let s = vint_bytes(v);
    if v < 0x80 {
        assert(s.drop_first() =~= Seq::<u8>::empty());
        assert(vint_value_front(s.drop_first()) == 0);
        assert(s[0] == v as u8);
        assert((((v as u8) & 0x7f) as u32) | (0u32 << 7u32) == v) by (bit_vector)
            requires
                v < 0x80,
        ;
    } else {
        lemma_shift7_decreases_u32(v);
        lemma_vint_front_roundtrip(v >> 7);
        let h = ((v & 0x7f) | 0x80) as u8;
        assert(s == seq![h] + vint_bytes(v >> 7));
        assert(s.drop_first() == vint_bytes(v >> 7));
        assert(s[0] == h);
        assert(vint_value_front(s) == (low7(h) as u32) | (vint_value_front(vint_bytes(v >> 7)) << 7u32));
        assert(((h & 0x7f) as u32) | ((v >> 7) << 7u32) == v) by (bit_vector)
            requires
                h == ((v & 0x7f) | 0x80) as u8,
        ;
    }
}

/// Reading back the bytes of `vlong_bytes(v)` gives `v` (at most ten bytes).
pub proof fn lemma_vlong_roundtrip(v: u64)
    ensures
        vlong_value(vlong_bytes(v)) == v,
        vlong_bytes(v).len() <= 10,
    decreases v,
{
    lemma_vlong_len_bound(v);
    lemma_vlong_front_back(vlong_bytes(v));
    lemma_vlong_front_roundtrip(v);
}

proof fn lemma_vlong_front_roundtrip(v: u64)
    ensures
        vlong_value_front(vlong_bytes(v)) == v,
    decreases v,
{
    let s = vlong_bytes(v);
    if v < 0x80 {
        assert(s.drop_first() =~= Seq::<u8>::empty());
        assert(vlong_value_front(s.drop_first()) == 0);
        assert(s[0] == v as u8);
        assert((((v as u8) & 0x7f) as u64) | (0u64 << 7u64) == v) by (bit_vector)
            requires
                v < 0x80,
        ;
    } else {
        lemma_shift7_decreases_u64(v);
        lemma_vlong_front_roundtrip(v >> 7);
        let h = ((v & 0x7f) | 0x80) as u8;
        assert(s == seq![h] + vlong_bytes(v >> 7));
        assert(s.drop_first() == vlong_bytes(v >> 7));
        assert(s[0] == h);
        assert(vlong_value_front(s) == (low7(h) as u64) | (vlong_value_front(vlong_bytes(v >> 7)) << 7u64));
        assert(((h & 0x7f) as u64) | ((v >> 7) << 7u64) == v) by (bit_vector)
            requires
                h == ((v & 0x7f) | 0x80) as u8,
        ;
    }
}

/// Bytes of a `u64` varint: `k` bytes when `v < 2^(7k)`.
proof fn lemma_vlong_len_bound(v: u64)
    ensures
        vlong_bytes(v).len() <= 10,
    decreases v,
{
    lemma_vlong_len_le(v, 10);
}

proof fn lemma_vlong_len_le(v: u64, k: u64)
    requires
        1 <= k <= 10,
        k == 10 || v >> ((7 * k) as u64) == 0,
    ensures
        vlong_bytes(v).len() <= k,
    decreases v,
{
    if v >= 0x80 {
        lemma_shift7_decreases_u64(v);
        let h = ((v & 0x7f) | 0x80) as u8;
        assert(vlong_bytes(v) == seq![h] + vlong_bytes(v >> 7));
        let w = v >> 7;
        if k == 1 {
            assert(v >> 7u64 == 0 ==> v < 0x80) by (bit_vector);
        } else if k == 10 {
            assert(w >> 63u64 == 0) by (bit_vector)
                requires
                    w == v >> 7,
            ;
            lemma_vlong_len_le(w, 9);
        } else {
            let k1 = (k - 1) as u64;
            assert(w >> ((7 * k1) as u64) == 0) by (bit_vector)
                requires
                    w == v >> 7,
                    2 <= k <= 9,
                    k1 == k - 1,
                    v >> ((7 * k) as u64) == 0,
            ;
            lemma_vlong_len_le(w, k1);
        }
    }
}

/// Bytes in the varint that starts at `p`, when its last byte comes within
/// `limit` bytes and inside `s`; zero otherwise.
pub open spec fn varint_len(s: Seq<u8>, p: int, limit: int) -> int {
    varint_len_from(s, p, 0, limit)
}

pub open spec fn varint_len_from(s: Seq<u8>, p: int, j: int, limit: int) -> int
    decreases limit - j,
{
    if j < 0 || j >= limit || p + j < 0 || p + j >= s.len() {
        0
    } else if s[p + j] < 0x80 {
        j + 1
    } else {
        varint_len_from(s, p, j + 1, limit)
    }
}

/// A varint that `varint_len` finds is a complete varint of that many bytes.
pub proof fn lemma_varint_len(s: Seq<u8>, p: int, j: int, limit: int)
    requires
        0 <= j,
        0 <= p,
        p + j <= s.len(),
        forall|k: int| 0 <= k < j ==> #[trigger] s[p + k] >= 0x80,
    ensures
        varint_len_from(s, p, j, limit) != 0 ==> {
            let k = varint_len_from(s, p, j, limit);
            &&& j < k <= limit
            &&& 0 <= p
            &&& p + k <= s.len()
            &&& is_varint(s.subrange(p, p + k))
        },
    decreases limit - j,
{
    if !(j < 0 || j >= limit || p + j < 0 || p + j >= s.len()) {
        if s[p + j] >= 0x80 {
            lemma_varint_len(s, p, j + 1, limit);
        } else {
            let t = s.subrange(p, p + j + 1);
            assert forall|k: int| 0 <= k < t.len() - 1 implies t[k] >= 0x80 by {
                assert(t[k] == s[p + k]);
            }
        }
    }
}

/// `varint_len` finds exactly the bytes of a complete varint written at `p`,
/// whatever follows it.
pub proof fn lemma_varint_len_of(s: Seq<u8>, p: int, v: Seq<u8>, limit: int)
    requires
        0 <= p,
        p + v.len() <= s.len(),
        s.subrange(p, p + v.len()) == v,
        is_varint(v),
        v.len() <= limit,
    ensures
        varint_len(s, p, limit) == v.len(),
{
    lemma_varint_len_of_from(s, p, v, limit, 0);
}

proof fn lemma_varint_len_of_from(s: Seq<u8>, p: int, v: Seq<u8>, limit: int, j: int)
    requires
        0 <= p,
        p + v.len() <= s.len(),
        s.subrange(p, p + v.len()) == v,
        is_varint(v),
        v.len() <= limit,
        0 <= j < v.len(),
    ensures
        varint_len_from(s, p, j, limit) == v.len(),
    decreases v.len() - j,
{
    assert(s[p + j] == v[j]);
    if j < v.len() - 1 {
        lemma_varint_len_of_from(s, p, v, limit, j + 1);
    }
}

/// Parse `n` consecutive varints (each at most five bytes) from the start of
/// `s`: the values and the end offset, or `None` when one is missing.
pub open spec fn parse_vints(s: Seq<u8>, n: nat) -> Option<(Seq<u32>, int)>
    decreases n,
{
    if n == 0 {
        Some((Seq::empty(), 0))
    } else {
        match parse_vints(s, (n - 1) as nat) {
            Some((vals, p)) => {
                let k = varint_len(s, p, 5);
                if k == 0 {
                    None
                } else {
                    Some((vals.push(vint_value(s.subrange(p, p + k))), p + k))
                }
            },
            None => None,
        }
    }
}

/// The varint bytes of each value, one after the other.
pub open spec fn vints(s: Seq<u32>) -> Seq<u8>
    decreases s.len(),
{
    if s.len() == 0 {
        Seq::empty()
    } else {
        vints(s.drop_last()) + vint_bytes(s.last())
    }
}

/// A successful parse stays within the buffer and does not look past its end offset.
pub proof fn lemma_parse_vints_bounds(s: Seq<u8>, n: nat)
    ensures
        parse_vints(s, n) matches Some((vals, p)) ==> vals.len() == n && 0 <= p <= s.len(),
    decreases n,
{
    if n > 0 {
        lemma_parse_vints_bounds(s, (n - 1) as nat);
        if let Some((vals, p)) = parse_vints(s, (n - 1) as nat) {
            if varint_len(s, p, 5) != 0 {
                lemma_varint_len(s, p, 0, 5);
            }
        }
    }
}

/// Appending bytes does not change a successful parse.
pub proof fn lemma_parse_vints_prefix(a: Seq<u8>, b: Seq<u8>, n: nat)
    requires
        parse_vints(a, n) is Some,
    ensures
        parse_vints(a + b, n) == parse_vints(a, n),
    decreases n,
{
    if n > 0 {
        lemma_parse_vints_prefix(a, b, (n - 1) as nat);
        lemma_parse_vints_bounds(a, (n - 1) as nat);
        let (vals, p) = parse_vints(a, (n - 1) as nat).unwrap();
        let k = varint_len(a, p, 5);
        lemma_varint_len(a, p, 0, 5);
        let v = a.subrange(p, p + k);
        assert((a + b).subrange(p, p + k) == v);
        lemma_varint_len_of(a + b, p, v, 5);
    }
}

/// Parsing the varints of a list gives the list back.
pub proof fn lemma_parse_vints_roundtrip(s: Seq<u32>)
    ensures
        parse_vints(vints(s), s.len()) == Some((s, vints(s).len() as int)),
    decreases s.len(),
{
    if s.len() > 0 {
        let t = s.drop_last();
        lemma_parse_vints_roundtrip(t);
        let v = vint_bytes(s.last());
        assert(vints(s) == vints(t) + v);
        lemma_parse_vints_prefix(vints(t), v, t.len());
        lemma_vint_bytes_shape(s.last());
        let p = vints(t).len() as int;
        assert(vints(s).subrange(p, p + v.len()) == v);
        lemma_varint_len_of(vints(s), p, v, 5);
        lemma_vint_roundtrip(s.last());
        assert(t.push(s.last()) == s);
    }
}

/// A parse of `n` varints parses every shorter run as its prefix.
pub proof fn lemma_parse_vints_mono(s: Seq<u8>, i: nat, n: nat)
    requires
        i <= n,
        parse_vints(s, n) is Some,
    ensures
        parse_vints(s, i) is Some,
        parse_vints(s, i).unwrap().0 == parse_vints(s, n).unwrap().0.subrange(0, i as int),
        parse_vints(s, i).unwrap().1 <= parse_vints(s, n).unwrap().1,
    decreases n - i,
{
    lemma_parse_vints_bounds(s, n);
    if i < n {
        lemma_parse_vints_mono(s, i, (n - 1) as nat);
        lemma_parse_vints_bounds(s, (n - 1) as nat);
        let (vals, p) = parse_vints(s, (n - 1) as nat).unwrap();
        lemma_varint_len(s, p, 0, 5);
        assert(parse_vints(s, n).unwrap().0.subrange(0, i as int) == vals.subrange(0, i as int));
    } else {
        assert(parse_vints(s, n).unwrap().0.subrange(0, i as int) == parse_vints(s, n).unwrap().0);
    }
}

/// Finding a varint in a suffix is finding it at the shifted offset.
pub proof fn lemma_varint_len_shift(s: Seq<u8>, a: int, q: int, limit: int)
    requires
        0 <= a <= s.len(),
        0 <= q,
    ensures
        varint_len(s.subrange(a, s.len() as int), q, limit) == varint_len(s, a + q, limit),
{
    lemma_varint_len_from_shift(s, a, q, limit, 0);
}

proof fn lemma_varint_len_from_shift(s: Seq<u8>, a: int, q: int, limit: int, j: int)
    requires
        0 <= a <= s.len(),
        0 <= q,
        0 <= j,
    ensures
        varint_len_from(s.subrange(a, s.len() as int), q, j, limit) == varint_len_from(
            s,
            a + q,
            j,
            limit,
        ),
    decreases limit - j,
{
    let t = s.subrange(a, s.len() as int);
    if !(j < 0 || j >= limit || q + j < 0 || q + j >= t.len()) {
        assert(t[q + j] == s[a + q + j]);
        lemma_varint_len_from_shift(s, a, q, limit, j + 1);
    }
}

} // verus!
