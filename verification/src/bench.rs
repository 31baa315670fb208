//! The parts of the measurement driver that compute rather than time:
//! encoding a whole dataset into one arena, and intersecting two sorted
//! lists, leapfrog style through the codec's cursors and by a naive merge
//! that checks it.

use vstd::prelude::*;

use crate::codec::{first_geq, seek_start, Codec, Cursor};
use crate::stream::{strictly_increasing, Kind};

verus! {

/// How many values of `a` also occur in `b`.
pub open spec fn count_common(a: Seq<u32>, b: Seq<u32>) -> nat
    decreases a.len(),
{
    if a.len() == 0 {
        0
    } else {
        count_common(a.drop_last(), b) + if b.contains(a.last()) {
            1nat
        } else {
            0nat
        }
    }
}

/// One more value of `a` counts exactly when `b` holds it.
proof fn lemma_count_common_step(a: Seq<u32>, b: Seq<u32>, i: int)
    requires
        0 <= i < a.len(),
    ensures
        count_common(a.take(i + 1), b) == count_common(a.take(i), b) + if b.contains(a[i]) {
            1nat
        } else {
            0nat
        },
{
    assert(a.take(i + 1).drop_last() =~= a.take(i));
}

/// `count_common` of a prefix never exceeds its length.
proof fn lemma_count_common_bound(a: Seq<u32>, b: Seq<u32>)
    ensures
        count_common(a, b) <= a.len(),
    decreases a.len(),
{
    if a.len() > 0 {
        lemma_count_common_bound(a.drop_last(), b);
    }
}

/// Values of `a` from `i` on that `b` does not hold add nothing.
proof fn lemma_count_common_rest(a: Seq<u32>, b: Seq<u32>, i: int)
    requires
        0 <= i <= a.len(),
        forall|p: int| i <= p < a.len() ==> !b.contains(#[trigger] a[p]),
    ensures
        count_common(a, b) == count_common(a.take(i), b),
    decreases a.len() - i,
{
    if i < a.len() {
        lemma_count_common_step(a, b, i);
        lemma_count_common_rest(a, b, i + 1);
    } else {
        assert(a.take(i) =~= a);
    }
}

/// The number of values the two strictly increasing lists share, by a
/// merge walk.
pub fn naive_intersect_count(a: &[u32], b: &[u32]) -> (r: usize)
    requires
        strictly_increasing(a@),
        strictly_increasing(b@),
    ensures
        r == count_common(a@, b@),
{
    let mut i: usize = 0;
    let mut j: usize = 0;
    let mut n: usize = 0;
    while i < a.len() && j < b.len()
        invariant
            strictly_increasing(a@),
            strictly_increasing(b@),
            i <= a@.len(),
            j <= b@.len(),
            n == count_common(a@.take(i as int), b@),
            forall|p: int, q: int| 0 <= p < i && j <= q < b@.len() ==> a@[p] < b@[q],
            forall|q: int, p: int| 0 <= q < j && i <= p < a@.len() ==> b@[q] < a@[p],
        decreases a@.len() - i + b@.len() - j,
    {
        proof {
            lemma_count_common_step(a@, b@, i as int);
            lemma_count_common_bound(a@.take(i as int), b@);
        }
        if a[i] < b[j] {
            proof {
                assert forall|q: int| 0 <= q < b@.len() implies b@[q] != a@[i as int] by {
                    if q > j {
                        assert(b@[j as int] < b@[q]);
                    }
                }
            }
            i = i + 1;
        } else if a[i] > b[j] {
            j = j + 1;
        } else {
            proof {
                assert(b@[j as int] == a@[i as int]);
            }
            n = n + 1;
            i = i + 1;
            j = j + 1;
        }
    }
    proof {
        if i < a@.len() {
            assert forall|p: int| i <= p < a@.len() implies !b@.contains(#[trigger] a@[p]) by {
                assert forall|q: int| 0 <= q < b@.len() implies b@[q] != a@[p] by {}
            }
        } else {
            assert(a@.take(i as int) =~= a@);
        }
        lemma_count_common_rest(a@, b@, i as int);
    }
    n
}

/// Leapfrog intersection through two fresh cursors over strictly
/// increasing lists: seek the second to the first's current value, and on
/// a miss seek the first to where the second landed. Returns how many
/// values the lists share.
pub fn leapfrog_count<A: Cursor + ?Sized, B: Cursor + ?Sized>(a: &mut A, b: &mut B) -> (r: usize)
    requires
        old(a).wf(),
        old(b).wf(),
        old(a).index() == -1,
        old(b).index() == -1,
        strictly_increasing(old(a).values()),
        strictly_increasing(old(b).values()),
        old(a).values().len() <= usize::MAX,
    ensures
        r == count_common(old(a).values(), old(b).values()),
{
    let ghost va = a.values();
    let ghost vb = b.values();
    let mut count: usize = 0;
    let mut x = match a.next() {
        Some(v) => v,
        None => {
            assert(va.len() == 0);
            return 0;
        },
    };
    loop
        invariant
            a.wf(),
            b.wf(),
            a.values() == va,
            b.values() == vb,
            va == old(a).values(),
            vb == old(b).values(),
            strictly_increasing(va),
            strictly_increasing(vb),
            va.len() <= usize::MAX,
            0 <= a.index() < va.len(),
            x == va[a.index()],
            -1 <= b.index() <= vb.len(),
            count == count_common(va.take(a.index()), vb),
            forall|q: int| 0 <= q < seek_start(b.index()) && q < vb.len() ==> #[trigger] vb[q] < x,
        decreases va.len() - a.index(),
    {
        let ghost ia = a.index();
        let ghost from = seek_start(b.index());
        proof {
            lemma_count_common_step(va, vb, ia);
            lemma_count_common_bound(va.take(ia), vb);
            crate::codec::lemma_first_geq_range(vb, from, x);
        }
        let y = match b.next_geq(x) {
            Some(y) => y,
            None => {
                proof {
                    let j = first_geq(vb, from, x);
                    assert(j == vb.len());
                    assert forall|p: int| ia <= p < va.len() implies !vb.contains(#[trigger] va[p]) by {
                        assert forall|q: int| 0 <= q < vb.len() implies vb[q] != va[p] by {
                            if p > ia {
                                assert(va[ia] < va[p]);
                            }
                        }
                    }
                    lemma_count_common_rest(va, vb, ia);
                }
                return count;
            },
        };
        let ghost j = b.index();
        proof {
            assert forall|q: int| 0 <= q < j implies #[trigger] vb[q] < x by {
                if q >= from {
                    assert(from <= q < first_geq(vb, from, x));
                }
            }
        }
        if y == x {
            proof {
                assert(vb[j] == va[ia]);
            }
            count = count + 1;
            match a.next() {
                Some(nx) => {
                    proof {
                        assert(va[ia] < va[ia + 1]);
                        assert forall|q: int| 0 <= q < seek_start(b.index()) && q < vb.len() implies #[trigger] vb[q]
                            < nx by {
                            if q < j {
                                assert(vb[q] < x);
                            } else {
                                assert(q == j);
                            }
                        }
                    }
                    x = nx;
                },
                None => {
                    proof {
                        assert(va.take(ia + 1) =~= va);
                    }
                    return count;
                },
            }
        } else {
            proof {
                // `x` is not in the second list: everything before `j` is
                // below it, and everything from `j` on is at least `y > x`.
                assert forall|q: int| 0 <= q < vb.len() implies vb[q] != x by {
                    if q > j {
                        assert(vb[j] < vb[q]);
                    }
                }
                crate::codec::lemma_first_geq_range(va, ia, y);
            }
            let ghost ib = j;
            match a.next_geq(y) {
                Some(nx) => {
                    proof {
                        let k = a.index();
                        assert(k > ia);
                        // the values skipped in the first list sit strictly
                        // between `x` and `y`, where the second list has none
                        assert forall|p: int| ia <= p < k implies !vb.contains(#[trigger] va[p]) by {
                            assert forall|q: int| 0 <= q < vb.len() implies vb[q] != va[p] by {
                                if p > ia {
                                    assert(va[ia] < va[p]);
                                    if q < ib {
                                        assert(vb[q] < x);
                                    } else if q > ib {
                                        assert(vb[ib] < vb[q]);
                                    }
                                }
                            }
                        }
                        lemma_count_common_skip(va, vb, ia, k);
                        assert forall|q: int| 0 <= q < seek_start(b.index()) && q < vb.len() implies #[trigger] vb[q]
                            < nx by {
                            assert(vb[q] < x);
                        }
                    }
                    x = nx;
                },
                None => {
                    proof {
                        assert forall|p: int| ia <= p < va.len() implies !vb.contains(#[trigger] va[p]) by {
                            assert forall|q: int| 0 <= q < vb.len() implies vb[q] != va[p] by {
                                if p > ia {
                                    assert(va[ia] < va[p]);
                                    if q < ib {
                                        assert(vb[q] < x);
                                    } else if q > ib {
                                        assert(vb[ib] < vb[q]);
                                    }
                                }
                            }
                        }
                        lemma_count_common_rest(va, vb, ia);
                    }
                    return count;
                },
            }
        }
    }
}

/// Values of `a` in `[i, k)` that `b` does not hold add nothing.
proof fn lemma_count_common_skip(a: Seq<u32>, b: Seq<u32>, i: int, k: int)
    requires
        0 <= i <= k <= a.len(),
        forall|p: int| i <= p < k ==> !b.contains(#[trigger] a[p]),
    ensures
        count_common(a.take(k), b) == count_common(a.take(i), b),
    decreases k - i,
{
    if i < k {
        lemma_count_common_skip(a, b, i + 1, k);
        lemma_count_common_step(a, b, i);
    }
}

/// Every list of a dataset encoded back to back: `bytes` holds the
/// encodings, `spans` the offset and length of each.
pub struct Arena {
    pub bytes: Vec<u8>,
    pub spans: Vec<(usize, usize)>,
}

/// The spans cover `bytes` list by list, back to back; for a lossless
/// codec each span holds its list's encoding.
pub open spec fn arena_of<C: Codec + ?Sized>(
    codec: &C,
    kind: Kind,
    universe: u32,
    lists: Seq<Vec<u32>>,
    bytes: Seq<u8>,
    spans: Seq<(usize, usize)>,
) -> bool {
    &&& spans.len() == lists.len()
    &&& forall|i: int|
        0 <= i < spans.len() ==> #[trigger] spans[i].0 + spans[i].1 <= bytes.len() && (i + 1
            < spans.len() ==> spans[i + 1].0 == spans[i].0 + spans[i].1)
    &&& spans.len() > 0 ==> spans[0].0 == 0
    &&& spans.len() > 0 ==> spans.last().0 + spans.last().1 == bytes.len()
    &&& codec.lossless() ==> forall|i: int|
        0 <= i < spans.len() ==> bytes.subrange(#[trigger] spans[i].0 as int, spans[i].0 + spans[i].1)
            == codec.encoding(kind, universe, lists[i]@)
}

/// Encode every list into the arena, replacing what it held.
pub fn encode_all<C: Codec + ?Sized>(codec: &C, kind: Kind, universe: u32, lists: &Vec<Vec<u32>>, arena: &mut Arena)
    requires
        forall|i: int|
            0 <= i < lists@.len() ==> crate::codec::accepts(
                codec.spec_caps(),
                kind,
                universe,
                #[trigger] lists@[i]@,
            ),
    ensures
        arena_of(codec, kind, universe, lists@, final(arena).bytes@, final(arena).spans@),
{
    arena.bytes.clear();
    arena.spans.clear();
    let mut i: usize = 0;
    while i < lists.len()
        invariant
            i <= lists@.len(),
            forall|k: int|
                0 <= k < lists@.len() ==> crate::codec::accepts(
                    codec.spec_caps(),
                    kind,
                    universe,
                    #[trigger] lists@[k]@,
                ),
            arena_of(codec, kind, universe, lists@.take(i as int), arena.bytes@, arena.spans@),
            i == 0 ==> arena.bytes@.len() == 0,
        decreases lists@.len() - i,
    {
        let start = arena.bytes.len();
        let ghost before = arena.bytes@;
        codec.encode(kind, universe, lists[i].as_slice(), &mut arena.bytes);
        let len = arena.bytes.len() - start;
        arena.spans.push((start, len));
        proof {
            let bytes = arena.bytes@;
            let spans = arena.spans@;
            assert forall|k: int| 0 <= k < i implies bytes.subrange(
                #[trigger] spans[k].0 as int,
                spans[k].0 + spans[k].1,
            ) == before.subrange(spans[k].0 as int, spans[k].0 + spans[k].1) by {
                assert(bytes.subrange(0, before.len() as int) == before);
                assert(bytes.subrange(spans[k].0 as int, spans[k].0 + spans[k].1) =~= before.subrange(
                    spans[k].0 as int,
                    spans[k].0 + spans[k].1,
                ));
            }
            if codec.lossless() {
                assert(bytes.subrange(start as int, start + len) =~= codec.encoding(
                    kind,
                    universe,
                    lists@[i as int]@,
                ));
            }
            assert(lists@.take(i + 1).drop_last() =~= lists@.take(i as int));
            assert(lists@.take(i + 1)[i as int] == lists@[i as int]);
        }
        i = i + 1;
    }
    assert(lists@.take(lists@.len() as int) =~= lists@);
}

} // verus!
