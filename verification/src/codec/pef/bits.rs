//! Bit arrays stored least-significant bit first in byte slices: the
//! arithmetic model (`bitn`, `bit_at`, `pack`), the bit-level writers and
//! readers the partitioned Elias-Fano format is built from, and rank/select
//! over a bit range.

use vstd::arithmetic::div_mod::{
    lemma_div_denominator, lemma_fundamental_div_mod, lemma_fundamental_div_mod_converse,
};
use vstd::arithmetic::power2::{
    lemma2_to64, lemma_pow2_adds, lemma_pow2_pos, lemma_pow2_strictly_increases, lemma_pow2_unfold,
    pow2,
};
use vstd::bits::{
    lemma_low_bits_mask_values, lemma_u64_low_bits_mask_is_mod, lemma_u64_shl_is_mul,
    lemma_u64_shr_is_div, lemma_u8_low_bits_mask_is_mod, lemma_u8_shl_is_mul, lemma_u8_shr_is_div,
    low_bits_mask,
};
use vstd::prelude::*;

verus! {

/// Bit `k` of `x`, least significant first.
pub open spec fn bitn(x: nat, k: nat) -> bool {
    (x / pow2(k)) % 2 == 1
}

/// Bit `i` of a byte array: bit `i % 8` of byte `i / 8`.
pub open spec fn bit_at(bytes: Seq<u8>, i: int) -> bool {
    bitn(bytes[i / 8] as nat, (i % 8) as nat)
}

/// Bytes needed for `n` bits.
pub open spec fn ceil8(n: int) -> int {
    (n + 7) / 8
}

/// The number whose bit `k` is `g(k)` for `k < m` and zero above.
pub open spec fn bits_sum(g: spec_fn(nat) -> bool, m: nat) -> nat
    decreases m,
{
    if m == 0 {
        0
    } else {
        bits_sum(g, (m - 1) as nat) + if g((m - 1) as nat) {
            pow2((m - 1) as nat)
        } else {
            0
        }
    }
}

/// Byte `j` of the packing of `n` bits given by `f`.
pub open spec fn packed_byte(n: int, f: spec_fn(int) -> bool, j: int) -> u8 {
    bits_sum(|k: nat| 8 * j + k < n && f(8 * j + k), 8) as u8
}

/// `n` bits, bit `i` being `f(i)`, packed least significant bit first into
/// `ceil8(n)` bytes; the padding bits of the last byte are zero.
pub open spec fn pack(n: int, f: spec_fn(int) -> bool) -> Seq<u8> {
    Seq::new(ceil8(n) as nat, |j: int| packed_byte(n, f, j))
}

/// `k` fields of `w` bits each, field `j` holding the low bits of `vals(j)`.
pub open spec fn fields_bits(vals: spec_fn(int) -> nat, w: nat) -> spec_fn(int) -> bool {
    |i: int| w > 0 && 0 <= i && bitn(vals(i / w as int), (i % w as int) as nat)
}

pub proof fn lemma_bitn_zero(k: nat)
    ensures
        !bitn(0, k),
{
    lemma_pow2_pos(k);
}

/// Bit 0 is the parity; bit `k + 1` of `x` is bit `k` of `x / 2`.
pub proof fn lemma_bitn_halve(x: nat, k: nat)
    ensures
        bitn(x, 0) == (x % 2 == 1),
        bitn(x, k + 1) == bitn(x / 2, k),
{
    lemma2_to64();
    lemma_pow2_unfold(k + 1);
    lemma_pow2_pos(k);
    lemma_div_denominator(x as int, 2, pow2(k) as int);
}

/// The bits of `2 q + b`.
pub proof fn lemma_bitn_double(x: nat, q: nat, b: nat, k: nat)
    requires
        b < 2,
        x == 2 * q + b,
    ensures
        bitn(x, 0) == (b == 1),
        bitn(x, k + 1) == bitn(q, k),
{
    lemma_fundamental_div_mod_converse(x as int, 2, q as int, b as int);
    lemma_bitn_halve(x, k);
}

/// Below `pow2(t)`, `x % pow2(t)` has the bits of `x`; above, none.
pub proof fn lemma_bitn_mod(x: nat, t: nat, k: nat)
    ensures
        bitn(x % pow2(t), k) == (k < t && bitn(x, k)),
    decreases t,
{
    lemma_pow2_pos(t);
    if t == 0 {
        lemma2_to64();
        assert(x % 1 == 0);
        lemma_bitn_zero(k);
    } else {
        let t1 = (t - 1) as nat;
        lemma_pow2_unfold(t);
        lemma_pow2_pos(t1);
        let a = x / 2;
        let b = x % 2;
        let q = a / pow2(t1);
        let r = a % pow2(t1);
        lemma_fundamental_div_mod(x as int, 2);
        lemma_fundamental_div_mod(a as int, pow2(t1) as int);
        assert(x == q * pow2(t) + (2 * r + b)) by (nonlinear_arith)
            requires
                x == 2 * a + b,
                a == pow2(t1) * q + r,
                pow2(t) == 2 * pow2(t1),
        ;
        lemma_fundamental_div_mod_converse(x as int, pow2(t) as int, q as int, (2 * r + b) as int);
        if k == 0 {
            lemma_bitn_double(2 * r + b, r, b, 0);
            lemma_bitn_halve(x, 0);
        } else {
            let k1 = (k - 1) as nat;
            lemma_bitn_double(2 * r + b, r, b, k1);
            lemma_bitn_mod(a, t1, k1);
            lemma_bitn_halve(x, k1);
        }
    }
}

/// Bit `k` of `x / pow2(t)` is bit `t + k` of `x`.
pub proof fn lemma_bitn_div(x: nat, t: nat, k: nat)
    ensures
        bitn(x / pow2(t), k) == bitn(x, t + k),
    decreases t,
{
    if t == 0 {
        lemma2_to64();
    } else {
        let t1 = (t - 1) as nat;
        lemma_pow2_unfold(t);
        lemma_pow2_pos(t1);
        lemma_div_denominator(x as int, 2, pow2(t1) as int);
        lemma_bitn_div(x / 2, t1, k);
        lemma_bitn_halve(x, (t1 + k) as nat);
    }
}

/// A number below `pow2(m)` has no bit at or above `m`.
pub proof fn lemma_bitn_high(x: nat, m: nat, k: nat)
    requires
        x < pow2(m),
        m <= k,
    ensures
        !bitn(x, k),
{
    if m < k {
        lemma_pow2_strictly_increases(m, k);
    }
    lemma_pow2_pos(k);
    assert(x / pow2(k) == 0) by {
        lemma_fundamental_div_mod_converse(x as int, pow2(k) as int, 0, x as int);
    }
}

/// Numbers below `pow2(m)` with the same low `m` bits are equal.
pub proof fn lemma_bitn_ext(x: nat, y: nat, m: nat)
    requires
        x < pow2(m),
        y < pow2(m),
        forall|k: nat| k < m ==> #[trigger] bitn(x, k) == bitn(y, k),
    ensures
        x == y,
    decreases m,
{
    if m == 0 {
        lemma2_to64();
    } else {
        let m1 = (m - 1) as nat;
        lemma_pow2_unfold(m);
        lemma_fundamental_div_mod(x as int, 2);
        lemma_fundamental_div_mod(y as int, 2);
        assert forall|k: nat| k < m1 implies #[trigger] bitn(x / 2, k) == bitn(y / 2, k) by {
            lemma_bitn_halve(x, k);
            lemma_bitn_halve(y, k);
            assert(bitn(x, k + 1) == bitn(y, k + 1));
        }
        lemma_bitn_ext(x / 2, y / 2, m1);
        lemma_bitn_halve(x, 0);
        lemma_bitn_halve(y, 0);
        assert(bitn(x, 0) == bitn(y, 0));
    }
}

/// `bits_sum(g, m)` is below `pow2(m)` and has exactly the bits `g` gives.
pub proof fn lemma_bits_sum(g: spec_fn(nat) -> bool, m: nat)
    ensures
        bits_sum(g, m) < pow2(m),
        forall|k: nat| #[trigger] bitn(bits_sum(g, m), k) == (k < m && g(k)),
    decreases m,
{
    if m == 0 {
        lemma2_to64();
        assert forall|k: nat| #[trigger] bitn(bits_sum(g, m), k) == (k < m && g(k)) by {
            lemma_bitn_zero(k);
        }
    } else {
        let m1 = (m - 1) as nat;
        lemma_bits_sum(g, m1);
        lemma_pow2_unfold(m);
        lemma_pow2_pos(m1);
        let s1 = bits_sum(g, m1);
        let c: nat = if g(m1) {
            1
        } else {
            0
        };
        let s = bits_sum(g, m);
        assert(s == c * pow2(m1) + s1);
        lemma_fundamental_div_mod_converse(s as int, pow2(m1) as int, c as int, s1 as int);
        assert forall|k: nat| #[trigger] bitn(bits_sum(g, m), k) == (k < m && g(k)) by {
            if k < m1 {
                lemma_bitn_mod(s, m1, k);
            } else if k == m1 {
                lemma2_to64();
            } else {
                lemma_bitn_high(s, m, k);
            }
        }
    }
}

/// The bits of a packed array are the packed bits, padding zero.
pub proof fn lemma_pack_bit(n: int, f: spec_fn(int) -> bool, i: int)
    requires
        0 <= n,
        0 <= i < 8 * ceil8(n),
    ensures
        bit_at(pack(n, f), i) == (i < n && f(i)),
{
    let j = i / 8;
    let k = (i % 8) as nat;
    let g = |t: nat| 8 * j + t < n && f(8 * j + t);
    lemma_bits_sum(g, 8);
    lemma2_to64();
    assert(pack(n, f)[j] == packed_byte(n, f, j));
    assert(bitn(bits_sum(g, 8), k) == g(k));
}

/// A byte array of the right length whose bits are those of `pack(n, f)`
/// is `pack(n, f)`.
pub proof fn lemma_pack_eq(v: Seq<u8>, n: int, f: spec_fn(int) -> bool)
    requires
        0 <= n,
        v.len() == ceil8(n),
        forall|i: int| 0 <= i < 8 * ceil8(n) ==> bit_at(v, i) == (i < n && f(i)),
    ensures
        v == pack(n, f),
{
    lemma2_to64();
    assert forall|j: int| 0 <= j < v.len() implies v[j] == pack(n, f)[j] by {
        assert forall|k: nat| k < 8 implies #[trigger] bitn(v[j] as nat, k) == bitn(pack(n, f)[j] as nat, k) by {
            let i = 8 * j + k;
            assert(i / 8 == j && i % 8 == k);
            lemma_pack_bit(n, f, i);
            assert(bit_at(v, i) == bitn(v[j] as nat, k));
            assert(bit_at(pack(n, f), i) == bitn(pack(n, f)[j] as nat, k));
        }
        lemma_bitn_ext(v[j] as nat, pack(n, f)[j] as nat, 8);
    }
    assert(v =~= pack(n, f));
}

/// Bits of a region inside a larger array, counted from the region start.
pub proof fn lemma_region_bit(buf: Seq<u8>, at: int, region: Seq<u8>, i: int)
    requires
        0 <= at,
        at + region.len() <= buf.len(),
        buf.subrange(at, at + region.len()) == region,
        0 <= i < 8 * region.len(),
    ensures
        bit_at(buf, 8 * at + i) == bit_at(region, i),
{
    assert((8 * at + i) / 8 == at + i / 8);
    assert((8 * at + i) % 8 == i % 8);
    assert(buf[at + i / 8] == buf.subrange(at, at + region.len())[i / 8]);
}


/// Numbers below `pow2(m)` with no bit in `[w, m)` are below `pow2(w)`.
pub proof fn lemma_bitn_bound(x: nat, w: nat, m: nat)
    requires
        w <= m,
        x < pow2(m),
        forall|k: nat| w <= k < m ==> !#[trigger] bitn(x, k),
    ensures
        x < pow2(w),
{
    lemma_pow2_pos(w);
    let y = x % pow2(w);
    if w < m {
        lemma_pow2_strictly_increases(w, m);
    }
    assert forall|k: nat| k < m implies #[trigger] bitn(x, k) == bitn(y, k) by {
        lemma_bitn_mod(x, w, k);
    }
    lemma_bitn_ext(x, y, m);
}

/// `pow2(64)` and the bound it puts on a `u64`.
pub proof fn lemma_u64_below(x: u64)
    ensures
        pow2(64) == 0x1_0000_0000_0000_0000,
        (x as nat) < pow2(64),
{
    vstd::arithmetic::power2::lemma2_to64_rest();
}

/// `(b >> s) & 1` reads bit `s` of a byte.
pub proof fn lemma_u8_bit(b: u8, s: u8)
    requires
        s < 8,
    ensures
        (b >> s) & 1u8 == (if bitn(b as nat, s as nat) {
            1u8
        } else {
            0u8
        }),
{
    lemma_u8_shr_is_div(b, s);
    lemma_u8_low_bits_mask_is_mod(b >> s, 1);
    lemma_low_bits_mask_values();
    lemma2_to64();
}

/// `(x >> s) & 1` reads bit `s` of a word.
pub proof fn lemma_u64_bit(x: u64, s: u64)
    requires
        s < 64,
    ensures
        (x >> s) & 1u64 == (if bitn(x as nat, s as nat) {
            1u64
        } else {
            0u64
        }),
{
    lemma_u64_shr_is_div(x, s);
    lemma_u64_low_bits_mask_is_mod(x >> s, 1);
    lemma_low_bits_mask_values();
    lemma2_to64();
}

proof fn lemma_u8_or_shl_raw(b: u8, c: u8, s: u8, k: u8)
    by (bit_vector)
    requires
        s < 8,
        k < 8,
        (c << s) >> s == c,
    ensures
        ((b | (c << s)) >> k) & 1u8 == 1u8 <==> ((b >> k) & 1u8 == 1u8 || (k >= s && (c >> ((k
            - s) as u8)) & 1u8 == 1u8)),
{
}

proof fn lemma_u64_or_shl_raw(a: u64, c: u64, s: u64, k: u64)
    by (bit_vector)
    requires
        s < 64,
        k < 64,
        (c << s) >> s == c,
    ensures
        ((a | (c << s)) >> k) & 1u64 == 1u64 <==> ((a >> k) & 1u64 == 1u64 || (k >= s && (c >> ((k
            - s) as u64)) & 1u64 == 1u64)),
{
}

/// Or-ing `c << s` into a byte, for `c` that fits above bit `s`.
pub proof fn lemma_u8_or_shl(b: u8, c: u8, s: u8)
    requires
        s < 8,
        c as nat * pow2(s as nat) < 256,
    ensures
        (c << s) as nat == c as nat * pow2(s as nat),
        forall|k: nat| #[trigger] bitn((b | (c << s)) as nat, k) == (bitn(b as nat, k) || (k >= s
            && bitn(c as nat, (k - s) as nat))),
{
    lemma_pow2_pos(s as nat);
    lemma_u8_shl_is_mul(c, s);
    lemma_u8_shr_is_div(c << s, s);
    lemma_fundamental_div_mod_converse(
        (c as nat * pow2(s as nat)) as int,
        pow2(s as nat) as int,
        c as int,
        0,
    );
    lemma2_to64();
    assert forall|k: nat| #[trigger] bitn((b | (c << s)) as nat, k) == (bitn(b as nat, k) || (k
        >= s && bitn(c as nat, (k - s) as nat))) by {
        if k < 8 {
            lemma_u8_or_shl_raw(b, c, s, k as u8);
            lemma_u8_bit(b | (c << s), k as u8);
            lemma_u8_bit(b, k as u8);
            if k >= s {
                lemma_u8_bit(c, (k - s) as u8);
            }
        } else {
            lemma_bitn_high((b | (c << s)) as nat, 8, k);
            lemma_bitn_high(b as nat, 8, k);
            lemma_pow2_adds((8 - s) as nat, s as nat);
            assert(c < pow2((8 - s) as nat)) by (nonlinear_arith)
                requires
                    c as nat * pow2(s as nat) < 256,
                    pow2((8 - s) as nat) * pow2(s as nat) == 256,
                    pow2(s as nat) > 0,
            ;
            lemma_bitn_high(c as nat, (8 - s) as nat, (k - s) as nat);
        }
    }
}

/// Or-ing `c << s` into a word, for `c` that fits above bit `s`.
pub proof fn lemma_u64_or_shl(a: u64, c: u64, s: u64)
    requires
        s < 64,
        c as nat * pow2(s as nat) < pow2(64),
    ensures
        (c << s) as nat == c as nat * pow2(s as nat),
        forall|k: nat| #[trigger] bitn((a | (c << s)) as nat, k) == (bitn(a as nat, k) || (k >= s
            && bitn(c as nat, (k - s) as nat))),
{
    lemma_u64_below(0);
    lemma_pow2_pos(s as nat);
    lemma_u64_shl_is_mul(c, s);
    lemma_u64_shr_is_div(c << s, s);
    lemma_fundamental_div_mod_converse(
        (c as nat * pow2(s as nat)) as int,
        pow2(s as nat) as int,
        c as int,
        0,
    );
    assert forall|k: nat| #[trigger] bitn((a | (c << s)) as nat, k) == (bitn(a as nat, k) || (k
        >= s && bitn(c as nat, (k - s) as nat))) by {
        if k < 64 {
            lemma_u64_or_shl_raw(a, c, s, k as u64);
            lemma_u64_bit(a | (c << s), k as u64);
            lemma_u64_bit(a, k as u64);
            if k >= s {
                lemma_u64_bit(c, (k - s) as u64);
            }
        } else {
            lemma_u64_below(a | (c << s));
            lemma_u64_below(a);
            lemma_u64_below(c);
            lemma_bitn_high((a | (c << s)) as nat, 64, k);
            lemma_bitn_high(a as nat, 64, k);
            lemma_pow2_adds((64 - s) as nat, s as nat);
            assert(c < pow2((64 - s) as nat)) by (nonlinear_arith)
                requires
                    c as nat * pow2(s as nat) < pow2(64),
                    pow2((64 - s) as nat) * pow2(s as nat) == pow2(64),
                    pow2(s as nat) > 0,
            ;
            lemma_bitn_high(c as nat, (64 - s) as nat, (k - s) as nat);
        }
    }
}

/// `x & (pow2(t) - 1)` for a mask built as `(1 << t) - 1`.
pub proof fn lemma_u64_low_mask(x: u64, t: u64)
    requires
        t < 64,
    ensures
        (1u64 << t) as nat == pow2(t as nat),
        ((1u64 << t) - 1) as nat == low_bits_mask(t as nat),
        (x & (((1u64 << t) - 1) as u64)) as nat == x as nat % pow2(t as nat),
{
    lemma_u64_below(0);
    lemma_pow2_pos(t as nat);
    lemma_pow2_strictly_increases(t as nat, 64);
    lemma_u64_shl_is_mul(1u64, t);
    lemma_u64_low_bits_mask_is_mod(x, t as nat);
}

/// Bit `i` of a byte array is byte `i / 8`, bit `i % 8`.
pub proof fn lemma_bit_at_split(bytes: Seq<u8>, j: int, k: int)
    requires
        0 <= k < 8,
        0 <= j,
    ensures
        bit_at(bytes, 8 * j + k) == bitn(bytes[j] as nat, k as nat),
{
    assert((8 * j + k) / 8 == j && (8 * j + k) % 8 == k);
}

/// Set bit `i` of a byte array.
pub fn set_bit(bytes: &mut Vec<u8>, i: usize)
    requires
        i / 8 < old(bytes)@.len(),
    ensures
        final(bytes)@.len() == old(bytes)@.len(),
        forall|p: int|
            0 <= p < 8 * final(bytes)@.len() ==> #[trigger] bit_at(final(bytes)@, p) == (p == i
                || bit_at(old(bytes)@, p)),
{
    let j = i / 8;
    let s = (i % 8) as u8;
    let b = bytes[j];
    proof {
        lemma2_to64();
        lemma_u8_or_shl(b, 1u8, s);
        assert forall|k: nat| #[trigger] bitn(1nat, k) == (k == 0) by {
            lemma2_to64();
            if k == 0 {
                assert(1nat / pow2(0) == 1);
            } else {
                lemma_bitn_high(1, 1, k);
            }
        }
    }
    bytes.set(j, b | (1u8 << s));
    proof {
        assert forall|p: int| 0 <= p < 8 * bytes@.len() implies #[trigger] bit_at(bytes@, p) == (p
            == i || bit_at(old(bytes)@, p)) by {
            let pj = p / 8;
            let pk = p % 8;
            lemma_bit_at_split(bytes@, pj, pk);
            lemma_bit_at_split(old(bytes)@, pj, pk);
            if pj == j as int {
                assert(bitn((b | (1u8 << s)) as nat, pk as nat) == (bitn(b as nat, pk as nat) || (
                pk >= s && bitn(1nat, (pk - s) as nat))));
            }
        }
    }
}

/// Writes bit fields one after another, least significant bit first. The
/// bits written so far are `bits()`; the bits of the last byte past them
/// are zero.
pub struct BitWriter {
    bytes: Vec<u8>,
    bit_len: usize,
    bits: Ghost<Seq<bool>>,
}

impl BitWriter {
    pub closed spec fn bits(&self) -> Seq<bool> {
        self.bits@
    }

    pub closed spec fn wf(&self) -> bool {
        &&& self.bit_len == self.bits@.len()
        &&& self.bytes@.len() == ceil8(self.bit_len as int)
        &&& forall|i: int|
            0 <= i < 8 * self.bytes@.len() ==> #[trigger] bit_at(self.bytes@, i) == (i
                < self.bit_len && self.bits@[i])
    }

    pub fn new() -> (w: Self)
        ensures
            w.wf(),
            w.bits() == Seq::<bool>::empty(),
    {
        BitWriter { bytes: Vec::new(), bit_len: 0, bits: Ghost(Seq::empty()) }
    }

    /// Append the low `width` bits of `value`.
    pub fn push(&mut self, value: u64, width: u8)
        requires
            old(self).wf(),
            width <= 64,
            old(self).bits().len() + width + 8 <= usize::MAX,
        ensures
            final(self).wf(),
            final(self).bits() == old(self).bits() + Seq::new(
                width as nat,
                |k: int| bitn(value as nat, k as nat),
            ),
    {
        let ghost v0 = value;
        let ghost start = self.bits@;
        let ghost target = start + Seq::new(width as nat, |k: int| bitn(v0 as nat, k as nat));
        let mut value = value;
        let mut width = width;
        let ghost mut done: nat = 0;
        proof {
            lemma2_to64();
            assert(start + Seq::new(0, |k: int| bitn(v0 as nat, k as nat)) =~= start);
        }
        proof {
            assert(target.subrange(0, start.len() as int) =~= start);
        }
        while width > 0
            invariant
                self.wf(),
                done + width == target.len() - start.len(),
                target.len() + 8 <= usize::MAX,
                target == start + Seq::new(
                    (target.len() - start.len()) as nat,
                    |k: int| bitn(v0 as nat, k as nat),
                ),
                self.bits@ == target.subrange(0, (start.len() + done) as int),
                value as nat == v0 as nat / pow2(done),
            decreases width,
        {
            let ghost pre = self.bytes@;
            let ghost old_bits = self.bits@;
            let ghost old_len = self.bit_len;
            let byte_index = self.bit_len / 8;
            let bit_index = self.bit_len % 8;
            let ghost pushed = byte_index == self.bytes.len();
            if byte_index == self.bytes.len() {
                self.bytes.push(0);
            }
            let take: usize = if (width as usize) < 8 - bit_index {
                width as usize
            } else {
                8 - bit_index
            };
            proof {
                lemma_u64_low_mask(value, take as u64);
                lemma_pow2_pos(take as nat);
                lemma_pow2_adds(take as nat, bit_index as nat);
                assert(pow2((take + bit_index) as nat) <= 256) by {
                    lemma2_to64();
                    if take + bit_index < 8 {
                        lemma_pow2_strictly_increases((take + bit_index) as nat, 8);
                    }
                }
                lemma_pow2_pos(bit_index as nat);
            }
            let chunk = value & ((1u64 << take as u64) - 1);
            let b = self.bytes[byte_index];
            proof {
                assert(chunk as nat * pow2(bit_index as nat) < 256) by (nonlinear_arith)
                    requires
                        chunk < pow2(take as nat),
                        pow2(take as nat) * pow2(bit_index as nat) == pow2(
                            (take + bit_index) as nat,
                        ),
                        pow2((take + bit_index) as nat) <= 256,
                        pow2(bit_index as nat) > 0,
                ;
                assert(chunk < 256) by (nonlinear_arith)
                    requires
                        chunk as nat * pow2(bit_index as nat) < 256,
                        pow2(bit_index as nat) > 0,
                ;
                lemma_u8_or_shl(b, chunk as u8, bit_index as u8);
            }
            self.bytes.set(byte_index, b | ((chunk as u8) << (bit_index as u8)));
            let ghost old_value = value;
            value = value >> take as u64;
            width = width - take as u8;
            self.bit_len = self.bit_len + take;
            proof {
                self.bits@ = target.subrange(0, (start.len() + done + take) as int);
                assert forall|i: int| 0 <= i < 8 * self.bytes@.len() implies #[trigger] bit_at(
                    self.bytes@,
                    i,
                ) == (i < self.bit_len && self.bits@[i]) by {
                    let ij = i / 8;
                    let ik = i % 8;
                    lemma_bit_at_split(self.bytes@, ij, ik);
                    if ij == byte_index {
                        assert(8 * byte_index + bit_index == old_len);
                        if pushed {
                            lemma_bitn_zero(ik as nat);
                        } else {
                            lemma_bit_at_split(pre, ij, ik);
                            assert(bit_at(pre, i) == (i < old_len && old_bits[i]));
                        }
                        if ik >= bit_index && ik < bit_index + take {
                            let d = (ik - bit_index) as nat;
                            lemma_bitn_mod(old_value as nat, take as nat, d);
                            lemma_bitn_div(v0 as nat, done, d);
                        } else if ik >= bit_index + take {
                            lemma_bitn_mod(old_value as nat, take as nat, (ik - bit_index) as nat);
                        }
                    } else {
                        assert(ij < byte_index);
                        assert(self.bytes@[ij] == pre[ij]);
                        lemma_bit_at_split(pre, ij, ik);
                        assert(bit_at(pre, i) == (i < old_len && old_bits[i]));
                    }
                }
                lemma_u64_shr_is_div(old_value, take as u64);
                lemma_pow2_adds(done, take as nat);
                lemma_pow2_pos(done);
                lemma_div_denominator(v0 as int, pow2(done) as int, pow2(take as nat) as int);
                done = done + take as nat;
            }
        }
        proof {
            assert(self.bits@ =~= target);
        }
    }

    pub fn finish(self) -> (bytes: Vec<u8>)
        requires
            self.wf(),
        ensures
            bytes@.len() == ceil8(self.bits().len() as int),
            forall|i: int|
                0 <= i < 8 * bytes@.len() ==> #[trigger] bit_at(bytes@, i) == (i
                    < self.bits().len() && self.bits()[i]),
    {
        self.bytes
    }
}

/// The `width` bits of `bytes` starting at bit `offset`, as a number.
pub fn read_bits(bytes: &[u8], offset: usize, width: u8) -> (r: u64)
    requires
        width <= 64,
        offset + width <= 8 * bytes@.len(),
        8 * bytes@.len() <= usize::MAX,
    ensures
        forall|k: nat| #[trigger] bitn(r as nat, k) == (k < width && bit_at(bytes@, offset + k)),
{
    let mut value: u64 = 0;
    let mut read: usize = 0;
    proof {
        assert forall|k: nat| #[trigger] bitn(value as nat, k) == (k < read && bit_at(
            bytes@,
            offset + k,
        )) by {
            lemma_bitn_zero(k);
        }
    }
    while read < width as usize
        invariant
            read <= width <= 64,
            offset + width <= 8 * bytes@.len() <= usize::MAX,
            forall|k: nat| #[trigger] bitn(value as nat, k) == (k < read && bit_at(
                bytes@,
                offset + k,
            )),
        decreases width - read,
    {
        let absolute = offset + read;
        let bit_index = absolute % 8;
        let take: usize = if (width as usize) - read < 8 - bit_index {
            (width as usize) - read
        } else {
            8 - bit_index
        };
        let byte = bytes[absolute / 8];
        proof {
            lemma_u64_low_mask((byte as u64) >> bit_index as u64, take as u64);
            lemma_pow2_pos(take as nat);
        }
        let chunk = ((byte as u64) >> bit_index as u64) & ((1u64 << take as u64) - 1);
        proof {
            lemma_u64_below(value);
            lemma_u64_shr_is_div(byte as u64, bit_index as u64);
            lemma_pow2_pos(take as nat);
            lemma_pow2_pos(read as nat);
            lemma_pow2_adds(take as nat, read as nat);
            assert(pow2((take + read) as nat) <= pow2(64)) by {
                if take + read < 64 {
                    lemma_pow2_strictly_increases((take + read) as nat, 64);
                }
            }
            assert(chunk as nat * pow2(read as nat) < pow2(64)) by (nonlinear_arith)
                requires
                    chunk < pow2(take as nat),
                    pow2(take as nat) * pow2(read as nat) == pow2((take + read) as nat),
                    pow2((take + read) as nat) <= pow2(64),
                    pow2(read as nat) > 0,
            ;
            lemma_u64_or_shl(value, chunk, read as u64);
        }
        let ghost old_value = value;
        value = value | (chunk << read as u64);
        proof {
            assert forall|k: nat| #[trigger] bitn(value as nat, k) == (k < read + take && bit_at(
                bytes@,
                offset + k,
            )) by {
                assert(bitn(value as nat, k) == (bitn(old_value as nat, k) || (k >= read && bitn(
                    chunk as nat,
                    (k - read) as nat,
                ))));
                if k >= read {
                    let d = (k - read) as nat;
                    lemma_bitn_mod(byte as nat / pow2(bit_index as nat), take as nat, d);
                    lemma_bitn_div(byte as nat, bit_index as nat, d);
                    if d < take {
                        lemma_bit_at_split(bytes@, (absolute / 8) as int, (bit_index + d) as int);
                        assert(8 * (absolute / 8) + bit_index + d == offset + k);
                    }
                }
            }
        }
        read = read + take;
    }
    value
}

} // verus!
