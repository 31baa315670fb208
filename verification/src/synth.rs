//! The synthetic generators that need no floating point: the periodic
//! grid with jitter, uniform values of a fixed bit width, the universe such
//! a width gives, and forcing a sorted list to an exact length. They draw
//! from a seeded `StdRng`, so a seed fixes the output.

use vstd::prelude::*;

use std::collections::HashSet;

use rand::rngs::StdRng;
use rand::Rng;

use crate::stream::{below, strictly_increasing};

verus! {

#[verifier::external_type_specification]
#[verifier::external_body]
pub struct ExStdRng(StdRng);

/// `Rng::random_range(lo..=hi)` on `i64`: a value in `[lo, hi]`. Which one
/// depends on the generator's state, so only the range is claimed.
#[verifier::external_body]
fn random_i64_between(rng: &mut StdRng, lo: i64, hi: i64) -> (r: i64)
    requires
        lo <= hi,
    ensures
        lo <= r <= hi,
{
    rng.random_range(lo..=hi)
}

/// `Rng::random_range(0..n)` on `u32`: a value below `n`. Which one depends
/// on the generator's state, so only the range is claimed.
#[verifier::external_body]
fn random_u32_below(rng: &mut StdRng, n: u32) -> (r: u32)
    requires
        n > 0,
    ensures
        r < n,
{
    rng.random_range(0..n)
}

/// The universe of `bits`-bit values: `2^bits`, `1` for no bits, capped at
/// `u32::MAX`.
pub open spec fn universe_of_bits(bits: u32) -> u32 {
    if bits == 0 {
        1
    } else if bits >= 32 {
        u32::MAX
    } else {
        vstd::arithmetic::power2::pow2(bits as nat) as u32
    }
}

/// The universe of `bits`-bit values.
pub fn bits_universe(bits: u32) -> (r: u32)
    ensures
        r == universe_of_bits(bits),
{
    if bits == 0 {
        1
    } else if bits >= 32 {
        u32::MAX
    } else {
        proof {
            vstd::bits::lemma_u32_pow2_no_overflow(bits as nat);
            vstd::bits::lemma_u32_shl_is_mul(1, bits);
        }
        1u32 << bits
    }
}

/// `len` values drawn uniformly below `universe` (none for an empty
/// universe).
pub fn uniform_bits_list(rng: &mut StdRng, len: u32, universe: u32) -> (r: Vec<u32>)
    ensures
        r@.len() == (if universe == 0 {
            0
        } else {
            len as int
        }),
        below(r@, universe),
{
    let mut out: Vec<u32> = Vec::new();
    if universe == 0 {
        return out;
    }
    let mut i: u32 = 0;
    while i < len
        invariant
            universe > 0,
            i <= len,
            out@.len() == i,
            below(out@, universe),
        decreases len - i,
    {
        let v = random_u32_below(rng, universe);
        out.push(v);
        i = i + 1;
    }
    out
}

/// The grid points `k * stride` below `universe`, in order: the first
/// `count` multiples, those that fall below it.
pub open spec fn grid(universe: u32, stride: u32, count: nat) -> Seq<u32>
    decreases count,
{
    if count == 0 {
        Seq::empty()
    } else {
        let c = (count - 1) * stride;
        let prev = grid(universe, stride, (count - 1) as nat);
        if c < universe {
            prev.push(c as u32)
        } else {
            prev
        }
    }
}

/// A grid point `k * stride` lies within `jitter` of `v`.
pub open spec fn near_grid(v: u32, stride: u32, jitter: u32) -> bool {
    exists|k: nat| #![trigger k * stride] k * stride - jitter <= v <= k * stride + jitter
}

/// Window `k` of the grid, `[k * stride - jitter, k * stride + jitter]`,
/// lies inside `[0, universe)`.
pub open spec fn window_inside(universe: u32, stride: u32, jitter: u32, k: nat) -> bool {
    jitter <= k * stride && k * stride + jitter < universe
}

/// Some value of `s` lies in window `k`.
pub open spec fn hits_window(s: Seq<u32>, stride: u32, jitter: u32, k: nat) -> bool {
    exists|i: int| 0 <= i < s.len() && k * stride - jitter <= #[trigger] s[i] <= k * stride + jitter
}

/// `v` lies in window `k`.
pub open spec fn in_window(v: u32, stride: u32, jitter: u32, k: nat) -> bool {
    k * stride - jitter <= v <= k * stride + jitter
}

/// No two neighbouring values of `s` share a window; with windows apart
/// (`stride > 2 jitter`) and `s` increasing, each window holds at most one.
pub open spec fn one_per_window(s: Seq<u32>, stride: u32, jitter: u32) -> bool {
    forall|i: int, k: nat|
        0 <= i && i + 1 < s.len() && #[trigger] in_window(s[i], stride, jitter, k) ==> !in_window(
            s[i + 1],
            stride,
            jitter,
            k,
        )
}

/// Values at `k * stride + noise` with `noise` drawn uniformly from
/// `[-jitter, +jitter]`, kept strictly increasing (a candidate is skipped
/// if it would not exceed the previous value, or falls outside the
/// universe). A zero stride counts as one. With no jitter the list is the
/// grid itself.
pub fn periodic_list(rng: &mut StdRng, universe: u32, stride: u32, jitter: u32) -> (r: Vec<u32>)
    ensures
        strictly_increasing(r@),
        below(r@, universe),
        forall|i: int| 0 <= i < r@.len() ==> near_grid(#[trigger] r@[i], if stride == 0 {
            1
        } else {
            stride
        }, jitter),
        jitter == 0 ==> r@ == grid(
            universe,
            if stride == 0 {
                1
            } else {
                stride
            },
            universe as nat + 1,
        ),
        ({
            let st = if stride == 0 {
                1u32
            } else {
                stride
            };
            st > 2 * jitter ==> forall|k: nat|
                #[trigger] window_inside(universe, st, jitter, k) ==> hits_window(r@, st, jitter, k)
        }),
        ({
            let st = if stride == 0 {
                1u32
            } else {
                stride
            };
            st > 2 * jitter ==> one_per_window(r@, st, jitter)
        }),
{
    let stride: u32 = if stride == 0 {
        1
    } else {
        stride
    };
    let mut out: Vec<u32> = Vec::new();
    let mut last: Option<u32> = None;
    let u = universe as u64;
    let j = jitter as u64;
    let s = stride as u64;
    let mut k: u64 = 0;
    loop
        invariant_except_break
            s == stride as u64,
            stride >= 1,
            u == universe as u64,
            j == jitter as u64,
            k <= u + j + 1,
            k * s <= u + j + s,
        invariant
            strictly_increasing(out@),
            below(out@, universe),
            forall|i: int| 0 <= i < out@.len() ==> near_grid(#[trigger] out@[i], stride, jitter),
            out@.len() == 0 <==> last is None,
            last matches Some(p) ==> p == out@.last(),
            last matches Some(p) ==> p <= (k - 1) * stride + jitter,
            jitter == 0 ==> out@ == grid(universe, stride, k as nat),
            stride > 2 * jitter ==> forall|kk: nat|
                kk < k && #[trigger] window_inside(universe, stride, jitter, kk) ==> hits_window(
                    out@,
                    stride,
                    jitter,
                    kk,
                ),
            stride > 2 * jitter ==> one_per_window(out@, stride, jitter),
        ensures
            jitter == 0 ==> out@ == grid(universe, stride, universe as nat + 1),
            stride > 2 * jitter ==> forall|kk: nat|
                #[trigger] window_inside(universe, stride, jitter, kk) ==> hits_window(
                    out@,
                    stride,
                    jitter,
                    kk,
                ),
        decreases u + j + 1 - k,
    {
        let center = match k.checked_mul(s) {
            Some(c) => c,
            None => u64::MAX,
        };
        if center > u + j {
            proof {
                assert(k * s > u + j);
                assert forall|kk: nat| #[trigger] window_inside(universe, stride, jitter, kk) implies kk < k by {
                    assert(kk * stride < k * stride);
                    assert(kk < k) by (nonlinear_arith)
                        requires
                            kk * stride < k * stride,
                    ;
                }
                if jitter == 0 {
                    assert(k * s >= universe);
                    assert((universe as nat + 1) * stride >= universe) by (nonlinear_arith)
                        requires
                            stride >= 1,
                    ;
                    if k <= universe + 1 {
                        lemma_grid_settled(universe, stride, k as nat, universe as nat + 1);
                    } else {
                        lemma_grid_settled(universe, stride, universe as nat + 1, k as nat);
                    }
                }
            }
            break;
        }
        proof {
            assert(k * s <= u + j);
            assert(k <= k * s) by (nonlinear_arith)
                requires
                    s >= 1,
            ;
            assert((k + 1) * s == k * s + s) by (nonlinear_arith);
        }
        k = k + 1;
        assert((k - 2) * stride <= (k - 1) * stride && (k - 1) * stride == (k - 2) * stride + stride)
            by (nonlinear_arith)
            requires
                stride >= 1,
        ;
        assert(((k - 1) as nat) * stride == center);
        let lo: i64 = -(jitter as i64);
        let hi: i64 = jitter as i64;
        let noise = random_i64_between(rng, lo, hi);
        let v = center as i64 + noise;
        if v < 0 || v >= universe as i64 {
            proof {
                if jitter == 0 {
                    assert(noise == 0);
                    assert(grid(universe, stride, k as nat) == grid(universe, stride, (k - 1) as nat));
                }
                if stride > 2 * jitter && window_inside(universe, stride, jitter, (k - 1) as nat) {
                    assert(false);
                }
            }
            continue;
        }
        let v = v as u32;
        proof {
            let kk = (k - 1) as nat;
            assert(kk * stride == center);
            assert(kk * stride - jitter <= v <= kk * stride + jitter);
        }
        match last {
            Some(p) => {
                if v <= p {
                    proof {
                        if jitter == 0 {
                            // the previous value is an earlier grid point
                            lemma_grid_below(universe, stride, (k - 1) as nat);
                            assert(false);
                        }
                        if stride > 2 * jitter {
                            assert(p <= (k - 2) * stride + jitter);
                            assert(false);
                        }
                    }
                    continue;
                }
            },
            None => {},
        }
        let ghost prev = out@;
        out.push(v);
        last = Some(v);
        proof {
            assert forall|a: int, b: int| 0 <= a < b < out@.len() implies out@[a] < out@[b] by {
                if b == out@.len() - 1 && a < b {
                    if a < prev.len() - 1 {
                        assert(prev[a] < prev.last());
                    }
                }
            }
            if jitter == 0 {
                assert(noise == 0);
                assert(out@ == grid(universe, stride, (k - 1) as nat).push(v));
            }
            if stride > 2 * jitter {
                assert forall|i: int, kk: nat|
                    0 <= i && i + 1 < out@.len() && #[trigger] in_window(
                        out@[i],
                        stride,
                        jitter,
                        kk,
                    ) implies !in_window(out@[i + 1], stride, jitter, kk) by {
                    if i + 1 < prev.len() {
                        assert(out@[i] == prev[i] && out@[i + 1] == prev[i + 1]);
                    } else {
                        let p = prev.last();
                        assert(out@[i] == p);
                        assert(p <= (k - 2) * stride + jitter);
                        assert(((k - 1) as nat) * stride == center);
                        if in_window(v, stride, jitter, kk) {
                            assert(false) by (nonlinear_arith)
                                requires
                                    kk * stride - jitter <= p,
                                    p <= (k - 2) * stride + jitter,
                                    v <= kk * stride + jitter,
                                    (k - 1) * stride - jitter <= v,
                                    stride > 2 * jitter,
                                    k >= 2,
                            ;
                        }
                    }
                }
                assert forall|kk: nat|
                    kk < k && #[trigger] window_inside(universe, stride, jitter, kk) implies hits_window(
                    out@,
                    stride,
                    jitter,
                    kk,
                ) by {
                    if kk == k - 1 {
                        assert(out@[out@.len() - 1] == v);
                    } else {
                        assert(hits_window(prev, stride, jitter, kk));
                        let i = choose|i: int|
                            0 <= i < prev.len() && kk * stride - jitter <= #[trigger] prev[i] <= kk
                                * stride + jitter;
                        assert(out@[i] == prev[i]);
                    }
                }
            }
        }
    }
    out
}

/// Every grid point so far lies below the next multiple.
proof fn lemma_grid_below(universe: u32, stride: u32, count: nat)
    requires
        stride >= 1,
    ensures
        forall|i: int|
            0 <= i < grid(universe, stride, count).len() ==> #[trigger] grid(universe, stride, count)[i]
                < count * stride,
    decreases count,
{
    if count > 0 {
        lemma_grid_below(universe, stride, (count - 1) as nat);
        assert((count - 1) * stride < count * stride) by (nonlinear_arith)
            requires
                stride >= 1,
        ;
        let g = grid(universe, stride, (count - 1) as nat);
        assert forall|i: int| 0 <= i < g.len() implies g[i] < count * stride by {
            assert(g[i] < (count - 1) * stride);
        }
    }
}

/// Once a multiple reaches the universe, later counts add nothing.
proof fn lemma_grid_settled(universe: u32, stride: u32, c1: nat, c2: nat)
    requires
        stride >= 1,
        c1 <= c2,
        c1 * stride >= universe,
    ensures
        grid(universe, stride, c2) == grid(universe, stride, c1),
    decreases c2 - c1,
{
    if c1 < c2 {
        lemma_grid_settled(universe, stride, c1, (c2 - 1) as nat);
        assert((c2 - 1) * stride >= c1 * stride) by (nonlinear_arith)
            requires
                c2 - 1 >= c1,
                stride >= 1,
        ;
    }
}

/// `slice::sort_unstable` on the values: they come out in ascending order,
/// the same values as many times each.
#[verifier::external_body]
fn sort_values(v: &mut Vec<u32>)
    ensures
        forall|i: int, j: int| 0 <= i < j < final(v)@.len() ==> final(v)@[i] <= final(v)@[j],
        final(v)@.to_multiset() == old(v)@.to_multiset(),
{
    v.sort_unstable();
}

/// `extra` holds values new to `list`: distinct, absent from it, and below
/// `universe`.
pub open spec fn fresh(list: Seq<u32>, extra: Seq<u32>, universe: u32) -> bool {
    &&& forall|i: int, j: int| 0 <= i < j < extra.len() ==> extra[i] != extra[j]
    &&& forall|i: int| 0 <= i < extra.len() ==> !list.contains(#[trigger] extra[i])
    &&& forall|i: int| 0 <= i < extra.len() ==> #[trigger] extra[i] < universe
}

/// The values of `l` below `v`, as a set.
pub open spec fn held_below(l: Seq<u32>, v: nat) -> Set<u32> {
    l.to_set().filter(|w: u32| w < v)
}

/// One more candidate value adds one to the count exactly when it is held.
proof fn lemma_held_below_step(l: Seq<u32>, v: u32)
    ensures
        held_below(l, v as nat).finite(),
        held_below(l, v as nat + 1).len() == held_below(l, v as nat).len() + if l.contains(v) {
            1nat
        } else {
            0nat
        },
{
    broadcast use vstd::seq_lib::seq_to_set_is_finite;
    l.to_set().lemma_len_filter(|w: u32| w < v as nat);
    if l.contains(v) {
        assert(held_below(l, v as nat + 1) =~= held_below(l, v as nat).insert(v));
    } else {
        assert(held_below(l, v as nat + 1) =~= held_below(l, v as nat));
    }
}

/// At most as many values are held below any bound as `l` has.
proof fn lemma_held_below_bound(l: Seq<u32>, v: nat)
    ensures
        held_below(l, v).len() <= l.len(),
{
    broadcast use vstd::seq_lib::seq_to_set_is_finite;
    l.to_set().lemma_len_filter(|w: u32| w < v);
    l.lemma_cardinality_of_set();
}

/// Bring a list to exactly `min(n, universe)` values: cut a longer one
/// short; otherwise add distinct values not yet in it, drawn at random
/// (up to `max(32 n, 32)` draws) and then the smallest unused ones, and
/// sort. A list already of that length, or an empty universe, is left as
/// it is.
pub fn force_len(rng: &mut StdRng, universe: u32, list: &mut Vec<u32>, n: usize)
    ensures
        ({
            let m = if n < universe as nat {
                n as nat
            } else {
                universe as nat
            };
            &&& old(list)@.len() > m ==> final(list)@ == old(list)@.take(m as int)
            &&& old(list)@.len() == m ==> final(list)@ == old(list)@
            &&& old(list)@.len() < m ==> {
                &&& final(list)@.len() == m
                &&& forall|i: int, j: int|
                    0 <= i < j < final(list)@.len() ==> final(list)@[i] <= final(list)@[j]
                &&& exists|extra: Seq<u32>|
                    fresh(old(list)@, extra, universe) && final(list)@.to_multiset() == (old(
                        list,
                    )@ + extra).to_multiset()
            }
        }),
{
    broadcast use vstd::std_specs::hash::group_hash_axioms;
    broadcast use vstd::seq_lib::group_seq_properties;

    let m: usize = if n < universe as usize {
        n
    } else {
        universe as usize
    };
    if list.len() > m {
        list.truncate(m);
        return ;
    }
    if list.len() == m || universe == 0 {
        return ;
    }
    let ghost start = list@;
    assert(vstd::std_specs::hash::obeys_key_model::<u32>());
    assert(vstd::std_specs::hash::builds_valid_hashers::<std::collections::hash_map::RandomState>());
    let mut seen: HashSet<u32> = HashSet::new();
    let mut i: usize = 0;
    while i < list.len()
        invariant
            list@ == start,
            i <= list@.len(),
            forall|x: u32| seen@.contains(x) <==> list@.take(i as int).contains(x),
        decreases list@.len() - i,
    {
        let x = list[i];
        let ghost before = seen@;
        seen.insert(x);
        proof {
            assert(seen@ == before.insert(x));
            let t = list@.take(i as int);
            assert(list@.take(i + 1) =~= t.push(x));
            lemma_push_contains(t, x);
        }
        i = i + 1;
    }
    assert(list@.take(list@.len() as int) =~= list@);
    let cap: usize = if m <= usize::MAX / 32 && m * 32 > 32 {
        m * 32
    } else if m > usize::MAX / 32 {
        usize::MAX
    } else {
        32
    };
    let mut attempts: usize = 0;
    while list.len() < m && attempts < cap
        invariant
            universe > 0,
            m <= universe,
            list@.len() <= m,
            start.len() < m,
            list@.take(start.len() as int) == start,
            start.len() <= list@.len(),
            fresh(start, list@.skip(start.len() as int), universe),
            forall|x: u32| seen@.contains(x) <==> list@.contains(x),
        decreases cap - attempts,
    {
        attempts = attempts + 1;
        let v = random_u32_below(rng, universe);
        let ghost seen_before = seen@;
        if seen.insert(v) {
            let ghost prev = list@;
            list.push(v);
            proof {
                assert(seen@ == seen_before.insert(v));
                lemma_push_contains(prev, v);
                assert(list@.take(start.len() as int) =~= prev.take(start.len() as int));
                assert(list@.skip(start.len() as int) =~= prev.skip(start.len() as int).push(v));
                assert forall|k: int| 0 <= k < prev.skip(start.len() as int).len() implies prev.skip(start.len() as int)[k] != v by {
                    assert(prev.contains(prev[start.len() + k]));
                }
                assert(!start.contains(v)) by {
                    if start.contains(v) {
                        let k = choose|k: int| 0 <= k < start.len() && start[k] == v;
                        assert(prev[k] == v);
                    }
                }
            }
        }
    }
    if list.len() < m {
        let ghost mid = list@;
        let mut v: u32 = 0;
        proof {
            assert(held_below(mid, 0) =~= Set::<u32>::empty());
        }
        while v < universe
            invariant
                universe > 0,
                m <= universe,
                v <= universe,
                mid.len() < m,
                list@.len() <= m,
                list@.take(mid.len() as int) == mid,
                mid.len() <= list@.len(),
                mid.take(start.len() as int) == start,
                start.len() <= mid.len(),
                fresh(start, list@.skip(start.len() as int), universe),
                forall|x: u32| seen@.contains(x) <==> list@.contains(x),
                forall|k: int| mid.len() <= k < list@.len() ==> #[trigger] list@[k] < v,
                list@.len() - mid.len() + held_below(mid, v as nat).len() == v,
                held_below(mid, v as nat).len() <= mid.len(),
            ensures
                list@.len() == m,
                list@.take(start.len() as int) == start,
                fresh(start, list@.skip(start.len() as int), universe),
            decreases universe - v,
        {
            if list.len() >= m {
                break;
            }
            proof {
                lemma_held_below_step(mid, v);
            }
            let ghost seen_before = seen@;
            if seen.insert(v) {
                let ghost prev = list@;
                list.push(v);
                proof {
                    assert(seen@ == seen_before.insert(v));
                    lemma_push_contains(prev, v);
                    assert(!mid.contains(v)) by {
                        if mid.contains(v) {
                            let k = choose|k: int| 0 <= k < mid.len() && mid[k] == v;
                            assert(prev[k] == v);
                        }
                    }
                    assert(list@.take(mid.len() as int) =~= prev.take(mid.len() as int));
                    assert(list@.take(start.len() as int) =~= prev.take(start.len() as int));
                    assert(list@.skip(start.len() as int) =~= prev.skip(start.len() as int).push(v));
                    assert forall|k: int| 0 <= k < prev.skip(start.len() as int).len() implies prev.skip(start.len() as int)[k] != v by {
                        assert(prev.contains(prev[start.len() + k]));
                    }
                    assert(!start.contains(v)) by {
                        if start.contains(v) {
                            let k = choose|k: int| 0 <= k < start.len() && start[k] == v;
                            assert(prev[k] == v);
                        }
                    }
                }
            } else {
                proof {
                    // `v` is held already, and not among the values this loop added
                    assert(seen_before.contains(v));
                    assert(list@.contains(v));
                    let k = choose|k: int| 0 <= k < list@.len() && list@[k] == v;
                    assert(k < mid.len());
                    assert(mid[k] == v);
                }
            }
            proof {
                lemma_held_below_bound(mid, v as nat + 1);
            }
            v = v + 1;
        }
    }
    let ghost before = list@;
    let ghost extra = before.skip(start.len() as int);
    proof {
        assert(before =~= start + extra);
    }
    sort_values(list);
    proof {
        assert(list@.len() == before.len()) by {
            before.to_multiset_ensures();
            list@.to_multiset_ensures();
        }
        assert(fresh(start, extra, universe) && list@.to_multiset() == (start + extra).to_multiset());
    }
}

/// What a pushed sequence holds.
proof fn lemma_push_contains(s: Seq<u32>, v: u32)
    ensures
        forall|y: u32| s.push(v).contains(y) <==> s.contains(y) || y == v,
{
    assert forall|y: u32| s.push(v).contains(y) <==> s.contains(y) || y == v by {
        if y == v {
            assert(s.push(v)[s.len() as int] == v);
        } else if s.contains(y) {
            let k = choose|k: int| 0 <= k < s.len() && s[k] == y;
            assert(s.push(v)[k] == y);
        } else if s.push(v).contains(y) {
            let k = choose|k: int| 0 <= k < s.len() + 1 && s.push(v)[k] == y;
            assert(s[k] == y);
        }
    }
}

} // verus!
