//! Forward seeks over an encoding, read in place: the upper level picks the
//! partition, the partition answers inside itself.

use vstd::arithmetic::div_mod::lemma_fundamental_div_mod;
use vstd::prelude::*;

use super::bits::ceil8;
use super::format::{ef_high_pos, lemma_partition, part_count, upper, upper_low_width, uppers};
use super::layout::{lemma_buf_bound, lemma_locals, lemma_upper_sparse};
use super::rank::{
    find_next_one, lemma_sparse_after, lemma_sparse_rank, lemma_sparse_select, lemma_sparse_total,
    select_one,
};
use super::read::{encodes, Layout, Partition, Position};
use crate::codec::{at, first_geq, lemma_first_geq_is, seek_start, Cursor};
use crate::stream::strictly_increasing;

verus! {

/// `partition_index` is `usize::MAX` before the first call and the
/// partition count once exhausted; otherwise the loaded partition and the
/// position in it are those of the current value.
pub struct PefCursor<'a> {
    layout: Layout<'a>,
    partition_index: usize,
    partition: Option<Partition<'a>>,
    upper_high_position: usize,
    position: Option<Position>,
    current: Option<u32>,
}

impl<'a> PefCursor<'a> {
    spec fn list(&self) -> Seq<u32> {
        self.layout.list@
    }

    spec fn k(&self) -> int {
        self.layout.partition_count as int
    }

    spec fn base(&self) -> bool {
        &&& self.layout.wf()
        &&& strictly_increasing(self.list())
        &&& self.k() < usize::MAX
    }

    /// Partition `j` is loaded, with where its maximum's high bit is.
    spec fn loaded(&self, j: int) -> bool {
        &&& self.base()
        &&& 0 <= j < self.k()
        &&& self.partition_index == j
        &&& self.upper_high_position == ef_high_pos(
            uppers(self.list()),
            upper_low_width(self.layout.universe@, self.list()),
        )(j)
        &&& self.partition matches Some(p) && p.wf() && p.which@ == j && p.list@ == self.list()
            && p.pef_universe@ == self.layout.universe@ && p.buf == self.layout.buf
    }

    spec fn fresh(&self) -> bool {
        &&& self.partition_index == usize::MAX
        &&& self.current is None
        &&& self.position is None
    }

    spec fn exhausted(&self) -> bool {
        &&& self.partition_index == self.k()
        &&& self.current is None
    }

    spec fn positioned(&self) -> bool {
        &&& self.loaded(self.partition_index as int)
        &&& self.position matches Some(q) && self.partition.unwrap().pos_ok(q) && self.current
            == Some(self.list()[128 * self.partition_index + q.index])
    }

    fn new(universe: u32, n: usize, buf: &'a [u8], Ghost(l): Ghost<Seq<u32>>) -> (r: Self)
        requires
            encodes(universe, l, buf@),
            l.len() == n,
        ensures
            r.base(),
            r.fresh(),
            r.list() == l,
    {
        let layout = Layout::new(universe, n, buf, Ghost(l));
        proof {
            lemma_buf_bound(universe, l);
            if n > 0 {
                lemma_partition(universe, l, 0);
            }
        }
        PefCursor {
            layout,
            partition_index: usize::MAX,
            partition: None,
            upper_high_position: 0,
            position: None,
            current: None,
        }
    }

    /// Load partition `j`, finding its maximum's high bit.
    fn load_partition(&mut self, j: usize)
        requires
            old(self).base(),
            j < old(self).k(),
        ensures
            final(self).loaded(j as int),
            final(self).layout == old(self).layout,
            final(self).position is None,
            final(self).current is None,
    {
        let ghost l = self.list();
        let ghost u = self.layout.universe@;
        let ghost pos = ef_high_pos(uppers(l), upper_low_width(u, l));
        proof {
            super::layout::lemma_layout(u, l);
            lemma_upper_sparse(u, l);
            lemma_sparse_total(
                self.layout.buf@,
                8 * self.layout.upper_high_start,
                self.layout.upper_high_bits as int,
                pos,
                self.k(),
            );
        }
        match select_one(
            self.layout.buf,
            self.layout.upper_high_start,
            self.layout.upper_high_bits,
            j,
        ) {
            Some(p) => {
                proof {
                    lemma_sparse_select(
                        self.layout.buf@,
                        8 * self.layout.upper_high_start,
                        self.layout.upper_high_bits as int,
                        pos,
                        self.k(),
                        p as int,
                    );
                }
                self.upper_high_position = p;
            },
            None => {
                proof {
                    assert(false);
                }
            },
        }
        self.load_partition_at(j);
    }

    /// Load partition `j`, whose maximum's high bit is already known.
    fn load_partition_at(&mut self, j: usize)
        requires
            old(self).base(),
            j < old(self).k(),
            old(self).upper_high_position == ef_high_pos(
                uppers(old(self).list()),
                upper_low_width(old(self).layout.universe@, old(self).list()),
            )(j as int),
        ensures
            final(self).loaded(j as int),
            final(self).layout == old(self).layout,
            final(self).position is None,
            final(self).current is None,
    {
        self.partition_index = j;
        self.partition = Some(self.layout.partition(j));
        self.position = None;
        self.current = None;
    }

    /// Move to `position` in the loaded partition.
    fn set_position(&mut self, position: Position) -> (r: Option<u32>)
        requires
            old(self).loaded(old(self).partition_index as int),
            old(self).partition.unwrap().pos_ok(position),
        ensures
            final(self).positioned(),
            final(self).layout == old(self).layout,
            final(self).partition_index == old(self).partition_index,
            final(self).position == Some(position),
            r == final(self).current,
    {
        let value = match &self.partition {
            Some(partition) => {
                proof {
                    partition.lemma_value_pub(position.index as int);
                }
                (partition.start + position.local as u64) as u32
            },
            None => {
                proof {
                    assert(false);
                }
                0
            },
        };
        self.position = Some(position);
        self.current = Some(value);
        Some(value)
    }

    fn exhaust(&mut self) -> (r: Option<u32>)
        requires
            old(self).base(),
        ensures
            final(self).base(),
            final(self).exhausted(),
            final(self).layout == old(self).layout,
            r is None,
    {
        self.partition_index = self.layout.partition_count;
        self.partition = None;
        self.position = None;
        self.current = None;
        None
    }
}

/// A value past the partitions that reach `target` is below it.
proof fn lemma_value_below(universe: u32, l: Seq<u32>, i: int, target: u32)
    requires
        super::format::pef_valid(universe, l),
        0 <= i < l.len(),
        upper(l, i / 128) < target,
    ensures
        l[i] < target,
        0 <= i / 128 < part_count(l.len()),
        128 * (i / 128) <= i,
{
    lemma_fundamental_div_mod(i, 128);
    lemma_fundamental_div_mod((l.len() + 127) as int, 128);
    lemma_partition(universe, l, i / 128);
    assert(l[128 * (i / 128) + i % 128] <= upper(l, i / 128));
}

impl<'a> PefCursor<'a> {
    /// The partition a seek for `target` continues in: the first one at or
    /// after the current partition whose maximum reaches `target`.
    fn partition_for_target(&mut self, target: u32) -> (r: Option<usize>)
        requires
            old(self).base(),
            old(self).k() > 0,
            old(self).fresh() || old(self).positioned(),
        ensures
            final(self).layout == old(self).layout,
            final(self).base(),
            match r {
                Some(j) => {
                    &&& final(self).loaded(j as int)
                    &&& upper(final(self).list(), j as int) >= target
                    &&& old(self).fresh() ==> final(self).position is None && forall|p: int|
                        0 <= p < j ==> upper(old(self).list(), p) < target
                    &&& old(self).positioned() ==> old(self).partition_index <= j
                    &&& old(self).positioned() && j == old(self).partition_index ==> final(self).position == old(self).position && final(self).current == old(self).current
                    &&& old(self).positioned() && j > old(self).partition_index ==> final(self).position is None && forall|p: int|
                        old(self).partition_index <= p < j ==> upper(old(self).list(), p) < target
                },
                None => {
                    &&& old(self).fresh() ==> forall|p: int|
                        0 <= p < old(self).k() ==> upper(old(self).list(), p) < target
                    &&& old(self).positioned() ==> forall|p: int|
                        old(self).partition_index <= p < old(self).k() ==> upper(
                            old(self).list(),
                            p,
                        ) < target
                },
            },
    {
        let ghost l = self.list();
        let ghost u = self.layout.universe@;
        if self.partition_index == usize::MAX {
            let j = match self.layout.lower_bound_partition(target, 0) {
                Some(j) => j,
                None => {
                    return None;
                },
            };
            self.load_partition(j);
            return Some(j);
        }
        let stay = match &self.partition {
            Some(partition) => partition.start + partition.universe as u64 > target as u64,
            None => {
                proof {
                    assert(false);
                }
                false
            },
        };
        if stay {
            return Some(self.partition_index);
        }
        let ghost pos = ef_high_pos(uppers(l), upper_low_width(u, l));
        let ghost old_pi = self.partition_index as int;
        proof {
            super::layout::lemma_layout(u, l);
            lemma_upper_sparse(u, l);
        }
        let mut partition_index = self.partition_index;
        let mut high_position = self.upper_high_position;
        while partition_index + 1 < self.layout.partition_count
            invariant
                self == old(self),
                self.base(),
                l == self.list(),
                u == self.layout.universe@,
                pos == ef_high_pos(uppers(l), upper_low_width(u, l)),
                super::rank::sparse(
                    self.layout.buf@,
                    8 * self.layout.upper_high_start,
                    self.layout.upper_high_bits as int,
                    pos,
                    self.k(),
                ),
                old_pi <= partition_index < self.k(),
                high_position == pos(partition_index as int),
                forall|p: int| old_pi <= p <= partition_index ==> upper(l, p) < target,
                8 * self.layout.buf@.len() <= usize::MAX,
                self.layout.upper_high_start + ceil8(self.layout.upper_high_bits as int)
                    <= self.layout.buf@.len(),
                old_pi == old(self).partition_index,
                old(self).positioned(),
            decreases self.k() - partition_index,
        {
            partition_index = partition_index + 1;
            proof {
                lemma_sparse_rank(
                    self.layout.buf@,
                    8 * self.layout.upper_high_start,
                    self.layout.upper_high_bits as int,
                    pos,
                    self.k(),
                    partition_index as int,
                );
                assert(pos(partition_index - 1) < pos(partition_index as int));
            }
            high_position = match find_next_one(
                self.layout.buf,
                self.layout.upper_high_start,
                self.layout.upper_high_bits,
                high_position + 1,
            ) {
                Some(p) => p,
                None => {
                    proof {
                        assert(false);
                    }
                    return None;
                },
            };
            proof {
                lemma_sparse_after(
                    self.layout.buf@,
                    8 * self.layout.upper_high_start,
                    self.layout.upper_high_bits as int,
                    pos,
                    self.k(),
                    partition_index - 1,
                    high_position as int,
                );
            }
            if self.layout.upper_bound_at(partition_index, high_position) >= target {
                self.upper_high_position = high_position;
                self.load_partition_at(partition_index);
                assert(self.loaded(partition_index as int));
                assert(upper(self.list(), partition_index as int) >= target);
                assert(!old(self).fresh());
                assert(old(self).partition_index < partition_index);
                assert(forall|p: int| old(self).partition_index <= p < partition_index ==> upper(
                    old(self).list(),
                    p,
                ) < target);
                return Some(partition_index);
            }
        }
        None
    }
}

impl<'a> Cursor for PefCursor<'a> {
    closed spec fn wf(&self) -> bool {
        &&& self.base()
        &&& self.fresh() || self.exhausted() || self.positioned()
    }

    closed spec fn values(&self) -> Seq<u32> {
        self.list()
    }

    closed spec fn index(&self) -> int {
        if self.partition_index == usize::MAX {
            -1
        } else if self.partition_index >= self.k() {
            self.list().len() as int
        } else {
            128 * self.partition_index + self.position.unwrap().index
        }
    }

    #[verifier::spinoff_prover]
    #[verifier::rlimit(40)]
    fn next_geq(&mut self, target: u32) -> (r: Option<u32>) {
        let ghost l = self.list();
        let ghost u = self.layout.universe@;
        let ghost from = seek_start(self.index());
        proof {
            if self.positioned() {
                let q = self.position.unwrap();
                self.partition.unwrap().lemma_value_pub(q.index as int);
                lemma_partition(u, l, self.partition_index as int);
            }
        }
        match self.current {
            Some(current) => {
                if current >= target {
                    proof {
                        lemma_first_geq_is(l, from, target, from);
                    }
                    return self.current;
                }
            },
            None => {},
        }
        if self.layout.partition_count == 0 || self.partition_index == self.layout.partition_count {
            proof {
                lemma_first_geq_is(l, from, target, l.len() as int);
            }
            return self.exhaust();
        }
        let ghost old_self = *self;
        let partition_index = match self.partition_for_target(target) {
            Some(j) => j,
            None => {
                proof {
                    assert forall|i: int| from <= i < l.len() implies l[i] < target by {
                        lemma_fundamental_div_mod(i, 128);
                        if old_self.positioned() {
                            assert(i / 128 >= old_self.partition_index);
                        }
                        lemma_value_below(u, l, i, target);
                    }
                    lemma_first_geq_is(l, from, target, l.len() as int);
                }
                return self.exhaust();
            },
        };
        let ghost j = partition_index as int;
        let found = match &self.partition {
            Some(partition) => {
                proof {
                    lemma_partition(u, l, j);
                    lemma_locals(u, l, j);
                }
                let local_target = if target as u64 > partition.start {
                    (target as u64 - partition.start) as usize
                } else {
                    0
                };
                let from_index = match &self.position {
                    Some(q) => q.index,
                    None => 0,
                };
                proof {
                    if self.position is Some {
                        let q = self.position.unwrap();
                        assert forall|t: int| 0 <= t < from_index implies #[trigger] partition.local(
                            t,
                        ) < local_target by {
                            partition.lemma_value_pub(t);
                            assert(l[128 * j + t] < l[128 * j + q.index]);
                        }
                    }
                }
                let found = partition.first_geq(local_target, from_index);
                proof {
                    match found {
                        Some(p) => {
                            let g = 128 * j + p.index;
                            partition.lemma_value_pub(p.index as int);
                            assert forall|i: int| from <= i < g implies l[i] < target by {
                                lemma_fundamental_div_mod(i, 128);
                                if i < 128 * j {
                                    if old_self.positioned() {
                                        assert(i / 128 >= old_self.partition_index);
                                    }
                                    assert(i / 128 < j);
                                    lemma_value_below(u, l, i, target);
                                } else {
                                    let t = i - 128 * j;
                                    partition.lemma_value_pub(t);
                                    assert(partition.local(t) < local_target);
                                }
                            }
                            assert(from <= g);
                            lemma_first_geq_is(l, from, target, g);
                        },
                        None => {
                            let last = partition.len - 1;
                            partition.lemma_value_pub(last);
                            assert(partition.local(last) < local_target);
                            assert(l[128 * j + last] == upper(l, j));
                        },
                    }
                }
                found
            },
            None => {
                proof {
                    assert(false);
                }
                None
            },
        };
        match found {
            Some(position) => self.set_position(position),
            None => {
                let next_partition = partition_index + 1;
                if next_partition >= self.layout.partition_count {
                    return self.exhaust();
                }
                self.load_partition(next_partition);
                let position = match &self.partition {
                    Some(partition) => partition.position_at(0),
                    None => {
                        return self.exhaust();
                    },
                };
                self.set_position(position)
            },
        }
    }

    fn next(&mut self) -> (r: Option<u32>) {
        let ghost l = self.list();
        let ghost u = self.layout.universe@;
        if self.layout.partition_count == 0 || self.partition_index == self.layout.partition_count {
            return self.exhaust();
        }
        if self.partition_index == usize::MAX {
            self.load_partition(0);
            proof {
                lemma_partition(u, l, 0);
            }
            let position = match &self.partition {
                Some(partition) => partition.position_at(0),
                None => {
                    return self.exhaust();
                },
            };
            return self.set_position(position);
        }
        let ghost pi = self.partition_index as int;
        proof {
            lemma_partition(u, l, pi);
        }
        let after = match &self.partition {
            Some(partition) => match &self.position {
                Some(current) => partition.next_after(current),
                None => None,
            },
            None => None,
        };
        match after {
            Some(position) => {
                return self.set_position(position);
            },
            None => {},
        }
        let next_partition = self.partition_index + 1;
        if next_partition >= self.layout.partition_count {
            return self.exhaust();
        }
        self.load_partition(next_partition);
        proof {
            lemma_partition(u, l, pi + 1);
        }
        let position = match &self.partition {
            Some(partition) => partition.position_at(0),
            None => {
                return self.exhaust();
            },
        };
        self.set_position(position)
    }
}

/// A fresh cursor over the encoded list.
pub(crate) fn open_cursor<'a>(universe: u32, n: usize, buf: &'a [u8], list: Ghost<Seq<u32>>) -> (r:
    Option<Box<dyn Cursor + 'a>>)
    requires
        encodes(universe, list@, buf@),
        list@.len() == n,
    ensures
        r is Some,
        r.unwrap().wf(),
        r.unwrap().values() == list@,
        r.unwrap().index() == -1,
{
    let c = PefCursor::new(universe, n, buf, list);
    assert(c.wf());
    let b: Box<dyn Cursor + 'a> = Box::new(c);
    let r = Some(b);
    assert(r.unwrap().wf());
    r
}

} // verus!
