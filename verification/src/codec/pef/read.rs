//! Reading the format in place: the layout of an encoding, its partitions,
//! and positions inside a partition.

use vstd::arithmetic::div_mod::{lemma_fundamental_div_mod, lemma_small_mod};
use vstd::arithmetic::power2::{lemma2_to64, lemma_pow2_pos, pow2};
use vstd::bits::lemma_u64_shr_is_div;
use vstd::prelude::*;
use vstd::std_specs::bits::axiom_u8_leading_zeros;

use super::bits::{
    lemma_u8_bit, bit_at, bitn, ceil8, lemma_bitn_div, lemma_bitn_ext, lemma_bitn_mod, lemma_u64_below,
    lemma_u64_or_shl, read_bits,
};
use super::encode::{div_ceil8, low_width};
use super::format::{
    ef_high_pos, lemma_low_width, lemma_partition, lemma_uppers_increasing, locals, offset_width,
    part_count, part_len, part_low_width, part_start, part_type, part_universe, pef_bytes,
    pef_valid, upper, upper_low_width, uppers, PARTITION_SIZE,
};
use super::layout::{
    high_bits, highs_at, holds_field, lemma_buf_bound, lemma_field_value, lemma_layout,
    lemma_locals, lemma_offset_field, lemma_part_all_ones, lemma_part_bitmap, lemma_part_ef,
    lemma_part_region, lemma_type_field, lemma_upper_field, lemma_upper_sparse, offsets_at, part_at,
    payload_at, types_at,
};
use super::rank::{
    count_below, count_ones_u8, find_next_one, is_pos, lemma_count_below_le,
    lemma_count_below_split, lemma_count_below_step, lemma_sparse_after, lemma_sparse_gap,
    lemma_sparse_ones, lemma_sparse_rank, lemma_sparse_select, lemma_sparse_total, ones,
    range_byte, select_one, sparse,
};

verus! {

/// Joining a high part and a low part of `w` bits gives the value back.
pub proof fn lemma_join(v: nat, w: nat, high: u64, low: u64)
    requires
        w < 64,
        v < pow2(64),
        high as nat == v / pow2(w),
        low as nat == v % pow2(w),
    ensures
        high as nat * pow2(w) < pow2(64),
        (low | (high << (w as u64))) as nat == v,
{
    lemma_pow2_pos(w);
    lemma_fundamental_div_mod(v as int, pow2(w) as int);
    assert(high as nat * pow2(w) <= v) by (nonlinear_arith)
        requires
            v == pow2(w) * (v / pow2(w)) + v % pow2(w),
            high as nat == v / pow2(w),
            v % pow2(w) >= 0,
    ;
    lemma_u64_or_shl(low, high, w as u64);
    let r = low | (high << (w as u64));
    assert forall|k: nat| k < 64 implies #[trigger] bitn(r as nat, k) == bitn(v, k) by {
        lemma_bitn_mod(v, w, k);
        if k >= w {
            lemma_bitn_div(v, w, (k - w) as nat);
        }
    }
    lemma_u64_below(r);
    lemma_bitn_ext(r as nat, v, 64);
}

/// Where an encoding's parts start, read from its header. A layout over
/// an empty list has no partitions.
pub struct Layout<'a> {
    pub buf: &'a [u8],
    pub n: usize,
    pub partition_count: usize,
    pub upper_l: u8,
    pub upper_low_start: usize,
    pub upper_high_start: usize,
    pub upper_high_bits: usize,
    pub type_start: usize,
    pub offset_start: usize,
    pub offset_width: u8,
    pub payload_start: usize,
    pub universe: Ghost<u32>,
    pub list: Ghost<Seq<u32>>,
}

/// The buffer holds the encoding of a list the format takes.
pub open spec fn encodes(universe: u32, l: Seq<u32>, buf: Seq<u8>) -> bool {
    pef_valid(universe, l) && buf == pef_bytes(universe, l)
}

impl<'a> Layout<'a> {
    pub open spec fn wf(&self) -> bool {
        let l = self.list@;
        let u = self.universe@;
        &&& encodes(u, l, self.buf@)
        &&& self.n == l.len()
        &&& self.partition_count == part_count(l.len())
        &&& self.n > 0 ==> {
            let ul = upper_low_width(u, l);
            let w = offset_width(l);
            &&& self.upper_l == ul
            &&& self.offset_width == w
            &&& self.upper_low_start == 2
            &&& self.upper_high_start == highs_at(l.len(), ul)
            &&& self.upper_high_bits == high_bits(u as nat, l.len(), ul)
            &&& self.type_start == types_at(u as nat, l.len(), ul)
            &&& self.offset_start == offsets_at(u as nat, l.len(), ul)
            &&& self.payload_start == payload_at(u as nat, l.len(), ul, w)
        }
    }

    pub fn new(universe: u32, n: usize, buf: &'a [u8], Ghost(l): Ghost<Seq<u32>>) -> (r: Self)
        requires
            encodes(universe, l, buf@),
            l.len() == n,
        ensures
            r.wf(),
            r.list@ == l,
            r.universe@ == universe,
            r.buf == buf,
    {
        let partition_count = n / PARTITION_SIZE + if n % PARTITION_SIZE != 0 {
            1
        } else {
            0
        };
        if n == 0 {
            return Layout {
                buf,
                n,
                partition_count,
                upper_l: 0,
                upper_low_start: 0,
                upper_high_start: 0,
                upper_high_bits: 0,
                type_start: 0,
                offset_start: 0,
                offset_width: 0,
                payload_start: 0,
                universe: Ghost(universe),
                list: Ghost(l),
            };
        }
        proof {
            lemma_layout(universe, l);
            lemma_pow2_pos(upper_low_width(universe, l));
        }
        let ghost ul = upper_low_width(universe, l);
        let ghost w = offset_width(l);
        let upper_l = buf[0];
        let offset_width = buf[1];
        let ghost k = part_count(l.len()) as int;
        proof {
            assert(k * ul <= 32 * k) by (nonlinear_arith)
                requires
                    ul <= 32,
                    k >= 0,
            ;
            assert(k * w <= 64 * k) by (nonlinear_arith)
                requires
                    w <= 64,
                    k >= 0,
            ;
            assert(k * ul >= 0 && k * w >= 0) by (nonlinear_arith)
                requires
                    k >= 0,
            ;
            lemma_u64_shr_is_div(universe as u64, upper_l as u64);
        }
        let upper_low_start: usize = 2;
        let upper_low_bytes = div_ceil8(partition_count as u64 * upper_l as u64) as usize;
        let upper_high_start = upper_low_start + upper_low_bytes;
        let upper_high_bits = partition_count + ((universe as u64) >> upper_l as u64) as usize;
        let type_start = upper_high_start + div_ceil8(upper_high_bits as u64) as usize;
        let offset_start = type_start + div_ceil8(2 * partition_count as u64) as usize;
        let payload_start = offset_start + div_ceil8(
            partition_count as u64 * offset_width as u64,
        ) as usize;
        Layout {
            buf,
            n,
            partition_count,
            upper_l,
            upper_low_start,
            upper_high_start,
            upper_high_bits,
            type_start,
            offset_start,
            offset_width,
            payload_start,
            universe: Ghost(universe),
            list: Ghost(l),
        }
    }

    /// Where partition `j`'s maximum has its high bit.
    pub open spec fn upper_pos(&self, j: int) -> int {
        ef_high_pos(uppers(self.list@), upper_low_width(self.universe@, self.list@))(j)
    }

    /// The maximum of partition `j`, given where its high bit is.
    pub fn upper_bound_at(&self, j: usize, high_position: usize) -> (r: u32)
        requires
            self.wf(),
            j < self.partition_count,
            high_position == self.upper_pos(j as int),
        ensures
            r as nat == upper(self.list@, j as int),
    {
        let ghost l = self.list@;
        let ghost u = self.universe@;
        let ghost ul = upper_low_width(u, l);
        let ghost v = upper(l, j as int);
        proof {
            lemma_layout(u, l);
            lemma_upper_field(u, l, j as int);
            lemma_partition(u, l, j as int);
            lemma_pow2_pos(ul);
            assert(j * ul >= 0) by (nonlinear_arith)
                requires
                    j >= 0,
            ;
        }
        let high = high_position - j;
        let low = read_bits(self.buf, 16 + j * self.upper_l as usize, self.upper_l);
        proof {
            lemma_field_value(self.buf@, 16 + j * ul, ul, v, low);
            lemma_u64_below(0);
            assert(v < pow2(64));
            lemma_join(v, ul, high as u64, low);
        }
        (low | ((high as u64) << self.upper_l as u64)) as u32
    }

    /// The maximum of partition `j`.
    pub fn upper_bound(&self, j: usize) -> (r: u32)
        requires
            self.wf(),
            j < self.partition_count,
        ensures
            r as nat == upper(self.list@, j as int),
    {
        let ghost l = self.list@;
        let ghost u = self.universe@;
        let ghost ul = upper_low_width(u, l);
        let ghost k = self.partition_count as int;
        let ghost pos = ef_high_pos(uppers(l), ul);
        proof {
            lemma_layout(u, l);
            lemma_upper_sparse(u, l);
            lemma_sparse_total(
                self.buf@,
                8 * self.upper_high_start,
                self.upper_high_bits as int,
                pos,
                k,
            );
        }
        let position = select_one(self.buf, self.upper_high_start, self.upper_high_bits, j);
        match position {
            Some(p) => {
                proof {
                    lemma_sparse_select(
                        self.buf@,
                        8 * self.upper_high_start,
                        self.upper_high_bits as int,
                        pos,
                        k,
                        p as int,
                    );
                }
                self.upper_bound_at(j, p)
            },
            None => {
                proof {
                    assert(false);
                }
                0
            },
        }
    }

    /// The first partition at or after `from` whose maximum reaches
    /// `target`, by binary search over the maxima.
    pub fn lower_bound_partition(&self, target: u32, from: usize) -> (r: Option<usize>)
        requires
            self.wf(),
            from <= self.partition_count,
        ensures
            match r {
                Some(j) => from <= j < self.partition_count && upper(self.list@, j as int) >= target
                    && forall|p: int| from <= p < j ==> upper(self.list@, p) < target,
                None => forall|p: int|
                    from <= p < self.partition_count ==> upper(self.list@, p) < target,
            },
    {
        let ghost l = self.list@;
        let ghost u = self.universe@;
        let mut low = from;
        let mut high = self.partition_count;
        while low < high
            invariant
                self.wf(),
                l == self.list@,
                u == self.universe@,
                from <= low <= high <= self.partition_count,
                forall|p: int| from <= p < low ==> upper(l, p) < target,
                forall|p: int| high <= p < self.partition_count ==> upper(l, p) >= target,
            decreases high - low,
        {
            let middle = low + (high - low) / 2;
            if self.upper_bound(middle) < target {
                proof {
                    assert forall|p: int| from <= p < middle + 1 implies upper(l, p) < target by {
                        if p < middle {
                            lemma_uppers_increasing(u, l, p, middle as int);
                        }
                    }
                }
                low = middle + 1;
            } else {
                proof {
                    assert forall|p: int| middle <= p < self.partition_count implies upper(l, p)
                        >= target by {
                        if p > middle {
                            lemma_uppers_increasing(u, l, middle as int, p);
                        }
                    }
                }
                high = middle;
            }
        }
        if low < self.partition_count {
            Some(low)
        } else {
            None
        }
    }
}

/// How a partition stores its values, with byte offsets into the buffer.
pub enum PartitionData {
    AllOnes,
    Bitmap { at: usize },
    EliasFano { lows_at: usize, highs_at: usize, low_width: u8, high_bits: usize },
}

/// One partition of an encoding: its start, length, local universe and
/// storage.
pub struct Partition<'a> {
    pub buf: &'a [u8],
    pub start: u64,
    pub len: usize,
    pub universe: usize,
    pub data: PartitionData,
    pub pef_universe: Ghost<u32>,
    pub list: Ghost<Seq<u32>>,
    pub which: Ghost<int>,
}

/// A value's place in a partition: its index, its local value, and (in an
/// Elias-Fano partition) where its high bit is.
#[derive(Clone, Copy)]
pub struct Position {
    pub index: usize,
    pub local: usize,
    pub high_position: usize,
}

impl<'a> Partition<'a> {
    pub open spec fn local(&self, i: int) -> nat {
        locals(self.list@, self.which@)(i)
    }

    pub open spec fn wf(&self) -> bool {
        let l = self.list@;
        let u = self.pef_universe@;
        let j = self.which@;
        &&& encodes(u, l, self.buf@)
        &&& 0 <= j < part_count(l.len())
        &&& self.start == part_start(l, j)
        &&& self.len == part_len(l.len(), j)
        &&& self.universe == part_universe(l, j)
        &&& match self.data {
            PartitionData::AllOnes => part_type(l, j) == 0,
            PartitionData::Bitmap { at } => part_type(l, j) == 1 && at == part_at(u, l, j),
            PartitionData::EliasFano { lows_at, highs_at, low_width, high_bits } => {
                &&& part_type(l, j) == 2
                &&& lows_at == part_at(u, l, j)
                &&& low_width == part_low_width(l, j)
                &&& highs_at == part_at(u, l, j) + ceil8(self.len * low_width)
                &&& high_bits == self.len + (self.universe as nat) / pow2(low_width as nat)
            },
        }
    }

    pub open spec fn pos_ok(&self, p: Position) -> bool {
        &&& p.index < self.len
        &&& p.local == self.local(p.index as int)
        &&& match self.data {
            PartitionData::EliasFano { low_width, .. } => p.high_position == ef_high_pos(
                locals(self.list@, self.which@),
                low_width as nat,
            )(p.index as int),
            _ => true,
        }
    }

    /// The value of local `local` in the list.
    pub proof fn lemma_value_pub(&self, i: int)
        requires
            self.wf(),
            0 <= i < self.len,
        ensures
            self.local(i) + self.start == self.list@[128 * self.which@ + i],
            self.local(i) < self.universe,
    {
        self.lemma_value(i);
    }

    proof fn lemma_value(&self, i: int)
        requires
            self.wf(),
            0 <= i < self.len,
        ensures
            self.local(i) + self.start == self.list@[128 * self.which@ + i],
            self.local(i) < self.universe,
            forall|a: int, b: int|
                0 <= a < b < self.len ==> #[trigger] self.local(a) < #[trigger] self.local(b),
    {
        lemma_locals(self.pef_universe@, self.list@, self.which@);
        assert forall|a: int, b: int| 0 <= a < b < self.len implies #[trigger] self.local(a)
            < #[trigger] self.local(b) by {
            assert(locals(self.list@, self.which@)(a) < locals(self.list@, self.which@)(b));
        }
    }

    /// The local value of the Elias-Fano value `i`, given its high bit.
    fn ef_local(&self, i: usize, high_position: usize) -> (r: usize)
        requires
            self.wf(),
            i < self.len,
            self.data is EliasFano,
            high_position == ef_high_pos(
                locals(self.list@, self.which@),
                part_low_width(self.list@, self.which@),
            )(i as int),
        ensures
            r == self.local(i as int),
    {
        let ghost l = self.list@;
        let ghost u = self.pef_universe@;
        let ghost j = self.which@;
        match self.data {
            PartitionData::EliasFano { lows_at, highs_at, low_width, high_bits } => {
                let ghost lw = low_width as nat;
                let ghost v = self.local(i as int);
                proof {
                    lemma_part_ef(u, l, j);
                    lemma_layout(u, l);
                    self.lemma_value(i as int);
                    lemma_pow2_pos(lw);
                    assert(holds_field(self.buf@, 8 * lows_at + i * lw, lw, v));
                    assert(i * lw + lw <= self.len * lw) by (nonlinear_arith)
                        requires
                            i < self.len,
                    ;
                    assert(i * lw >= 0) by (nonlinear_arith)
                        requires
                            i >= 0,
                    ;
                }
                let high = high_position - i;
                let low = read_bits(self.buf, 8 * lows_at + i * low_width as usize, low_width);
                proof {
                    lemma_field_value(self.buf@, 8 * lows_at + i * lw, lw, v, low);
                    lemma_u64_below(0);
                    assert(v < 0x1_0000_0000);
                    lemma_join(v, lw, high as u64, low);
                }
                (low | ((high as u64) << low_width as u64)) as usize
            },
            _ => {
                proof {
                    assert(false);
                }
                0
            },
        }
    }

    /// The position of value `i`.
    pub fn position_at(&self, i: usize) -> (r: Position)
        requires
            self.wf(),
            i < self.len,
        ensures
            self.pos_ok(r),
            r.index == i,
    {
        let ghost l = self.list@;
        let ghost u = self.pef_universe@;
        let ghost j = self.which@;
        proof {
            lemma_layout(u, l);
            self.lemma_value(i as int);
        }
        match self.data {
            PartitionData::AllOnes => {
                proof {
                    lemma_part_all_ones(u, l, j, i as int);
                }
                Position { index: i, local: i, high_position: 0 }
            },
            PartitionData::Bitmap { at } => {
                let ghost pos = |t: int| locals(l, j)(t) as int;
                proof {
                    lemma_part_bitmap(u, l, j);
                    lemma_sparse_total(self.buf@, 8 * at, self.universe as int, pos, self.len as int);
                }
                match select_one(self.buf, at, self.universe, i) {
                    Some(p) => {
                        proof {
                            lemma_sparse_select(
                                self.buf@,
                                8 * at,
                                self.universe as int,
                                pos,
                                self.len as int,
                                p as int,
                            );
                        }
                        Position { index: i, local: p, high_position: 0 }
                    },
                    None => {
                        proof {
                            assert(false);
                        }
                        Position { index: i, local: 0, high_position: 0 }
                    },
                }
            },
            PartitionData::EliasFano { lows_at, highs_at, low_width, high_bits } => {
                let ghost pos = ef_high_pos(locals(l, j), low_width as nat);
                proof {
                    lemma_part_ef(u, l, j);
                    lemma_sparse_total(self.buf@, 8 * highs_at, high_bits as int, pos, self.len as int);
                }
                match select_one(self.buf, highs_at, high_bits, i) {
                    Some(hp) => {
                        proof {
                            lemma_sparse_select(
                                self.buf@,
                                8 * highs_at,
                                high_bits as int,
                                pos,
                                self.len as int,
                                hp as int,
                            );
                        }
                        let local = self.ef_local(i, hp);
                        Position { index: i, local, high_position: hp }
                    },
                    None => {
                        proof {
                            assert(false);
                        }
                        Position { index: i, local: 0, high_position: 0 }
                    },
                }
            },
        }
    }

    /// Value `i` of the partition, `None` past its end.
    pub fn value_at(&self, i: usize) -> (r: Option<u32>)
        requires
            self.wf(),
        ensures
            r == (if i < self.len {
                Some(self.list@[128 * self.which@ + i])
            } else {
                None::<u32>
            }),
    {
        if i >= self.len {
            return None;
        }
        let p = self.position_at(i);
        proof {
            self.lemma_value(i as int);
        }
        Some((self.start + p.local as u64) as u32)
    }

    /// The position after `current`, `None` at the partition's end.
    pub fn next_after(&self, current: &Position) -> (r: Option<Position>)
        requires
            self.wf(),
            self.pos_ok(*current),
        ensures
            match r {
                Some(p) => self.pos_ok(p) && p.index == current.index + 1,
                None => current.index + 1 == self.len,
            },
    {
        let ghost l = self.list@;
        let ghost u = self.pef_universe@;
        let ghost j = self.which@;
        let index = current.index + 1;
        if index >= self.len {
            return None;
        }
        proof {
            lemma_layout(u, l);
            self.lemma_value(index as int);
            self.lemma_value(current.index as int);
        }
        match self.data {
            PartitionData::AllOnes => {
                proof {
                    lemma_part_all_ones(u, l, j, index as int);
                    lemma_part_all_ones(u, l, j, current.index as int);
                }
                Some(Position { index, local: current.local + 1, high_position: 0 })
            },
            PartitionData::Bitmap { at } => {
                let ghost pos = |t: int| locals(l, j)(t) as int;
                proof {
                    lemma_part_bitmap(u, l, j);
                    lemma_sparse_rank(
                        self.buf@,
                        8 * at,
                        self.universe as int,
                        pos,
                        self.len as int,
                        index as int,
                    );
                    assert(pos(current.index as int) < pos(index as int));
                }
                match find_next_one(self.buf, at, self.universe, current.local + 1) {
                    Some(p) => {
                        proof {
                            lemma_sparse_after(
                                self.buf@,
                                8 * at,
                                self.universe as int,
                                pos,
                                self.len as int,
                                current.index as int,
                                p as int,
                            );
                        }
                        Some(Position { index, local: p, high_position: 0 })
                    },
                    None => {
                        proof {
                            assert(!bit_at(self.buf@, 8 * at + pos(index as int)));
                        }
                        None
                    },
                }
            },
            PartitionData::EliasFano { lows_at, highs_at, low_width, high_bits } => {
                let ghost pos = ef_high_pos(locals(l, j), low_width as nat);
                proof {
                    lemma_part_ef(u, l, j);
                    lemma_sparse_rank(
                        self.buf@,
                        8 * highs_at,
                        high_bits as int,
                        pos,
                        self.len as int,
                        index as int,
                    );
                    assert(pos(current.index as int) < pos(index as int));
                }
                match find_next_one(self.buf, highs_at, high_bits, current.high_position + 1) {
                    Some(hp) => {
                        proof {
                            lemma_sparse_after(
                                self.buf@,
                                8 * highs_at,
                                high_bits as int,
                                pos,
                                self.len as int,
                                current.index as int,
                                hp as int,
                            );
                        }
                        let local = self.ef_local(index, hp);
                        Some(Position { index, local, high_position: hp })
                    },
                    None => {
                        proof {
                            assert(!bit_at(self.buf@, 8 * highs_at + pos(index as int)));
                        }
                        None
                    },
                }
            },
        }
    }
}

impl<'a> Layout<'a> {
    /// Partition `j`: its bounds from the upper level, its type and its
    /// payload offset.
    #[verifier::spinoff_prover]
    #[verifier::rlimit(40)]
    pub fn partition(&self, j: usize) -> (r: Partition<'a>)
        requires
            self.wf(),
            j < self.partition_count,
        ensures
            r.wf(),
            r.which@ == j,
            r.list@ == self.list@,
            r.pef_universe@ == self.universe@,
            r.buf == self.buf,
    {
        let ghost l = self.list@;
        let ghost u = self.universe@;
        let ghost ul = upper_low_width(u, l);
        let ghost w = offset_width(l);
        let ghost k = self.partition_count as int;
        let ghost upos = ef_high_pos(uppers(l), ul);
        proof {
            lemma_layout(u, l);
            lemma_partition(u, l, j as int);
            lemma_upper_sparse(u, l);
            lemma_sparse_total(self.buf@, 8 * self.upper_high_start, self.upper_high_bits as int, upos, k);
        }
        let (start, hi) = if j == 0 {
            (0u64, self.upper_bound(0) as u64)
        } else {
            let previous_position = match select_one(
                self.buf,
                self.upper_high_start,
                self.upper_high_bits,
                j - 1,
            ) {
                Some(p) => p,
                None => {
                    proof {
                        assert(false);
                    }
                    0
                },
            };
            proof {
                lemma_sparse_select(
                    self.buf@,
                    8 * self.upper_high_start,
                    self.upper_high_bits as int,
                    upos,
                    k,
                    previous_position as int,
                );
                lemma_sparse_rank(self.buf@, 8 * self.upper_high_start, self.upper_high_bits as int, upos, k, j as int);
                assert(upos(j - 1) < upos(j as int));
            }
            let previous = self.upper_bound_at(j - 1, previous_position);
            let position = match find_next_one(
                self.buf,
                self.upper_high_start,
                self.upper_high_bits,
                previous_position + 1,
            ) {
                Some(p) => p,
                None => {
                    proof {
                        assert(!bit_at(self.buf@, 8 * self.upper_high_start + upos(j as int)));
                    }
                    previous_position
                },
            };
            proof {
                lemma_sparse_after(
                    self.buf@,
                    8 * self.upper_high_start,
                    self.upper_high_bits as int,
                    upos,
                    k,
                    j - 1,
                    position as int,
                );
            }
            (previous as u64 + 1, self.upper_bound_at(j, position) as u64)
        };
        let universe = (hi + 1 - start) as usize;
        let len = if self.n - PARTITION_SIZE * j < PARTITION_SIZE {
            self.n - PARTITION_SIZE * j
        } else {
            PARTITION_SIZE
        };
        proof {
            lemma_type_field(u, l, j as int);
            lemma_offset_field(u, l, j as int);
            lemma_pow2_pos(w);
            lemma2_to64();
            assert(j * w >= 0) by (nonlinear_arith)
                requires
                    j >= 0,
            ;
        }
        let type_bits = read_bits(self.buf, 8 * self.type_start + 2 * j, 2);
        let offset_bits = read_bits(
            self.buf,
            8 * self.offset_start + j * self.offset_width as usize,
            self.offset_width,
        );
        proof {
            lemma_field_value(self.buf@, 8 * self.type_start + 2 * j, 2, part_type(l, j as int), type_bits);
            lemma_small_mod(part_type(l, j as int), 4);
            lemma_field_value(
                self.buf@,
                8 * self.offset_start + j * w,
                w,
                super::format::payload_upto(l, j as int).len(),
                offset_bits,
            );
            lemma_small_mod(super::format::payload_upto(l, j as int).len(), pow2(w));
            lemma_part_region(u, l, j as int);
        }
        let at = self.payload_start + offset_bits as usize;
        let data = if type_bits == 0 {
            PartitionData::AllOnes
        } else if type_bits == 1 {
            PartitionData::Bitmap { at }
        } else {
            proof {
                lemma_part_ef(u, l, j as int);
                lemma_low_width(universe as nat, len as nat);
                lemma_pow2_pos(part_low_width(l, j as int));
            }
            let lw = low_width(universe as u64, len);
            proof {
                lemma_u64_shr_is_div(universe as u64, lw as u64);
                assert(len * lw <= 128 * 32) by (nonlinear_arith)
                    requires
                        len <= 128,
                        lw <= 32,
                ;
            }
            let low_bytes = div_ceil8(len as u64 * lw as u64) as usize;
            let high_bits = len + ((universe as u64) >> lw as u64) as usize;
            PartitionData::EliasFano { lows_at: at, highs_at: at + low_bytes, low_width: lw, high_bits }
        };
        Partition {
            buf: self.buf,
            start,
            len,
            universe,
            data,
            pef_universe: Ghost(u),
            list: Ghost(l),
            which: Ghost(j as int),
        }
    }
}

impl<'a> Partition<'a> {
    /// The first value at or after index `from_index` whose local value
    /// reaches `target`; the values before `from_index` are known to be
    /// below it.
    pub fn first_geq(&self, target: usize, from_index: usize) -> (r: Option<Position>)
        requires
            self.wf(),
            from_index <= self.len,
            forall|t: int| 0 <= t < from_index ==> #[trigger] self.local(t) < target,
        ensures
            match r {
                Some(p) => self.pos_ok(p) && from_index <= p.index && self.local(p.index as int)
                    >= target && forall|t: int| 0 <= t < p.index ==> #[trigger] self.local(t)
                    < target,
                None => forall|t: int| 0 <= t < self.len ==> #[trigger] self.local(t) < target,
            },
    {
        match self.data {
            PartitionData::AllOnes => self.all_ones_geq(target, from_index),
            PartitionData::Bitmap { .. } => self.bitmap_geq(target, from_index),
            PartitionData::EliasFano { .. } => self.find_ef_geq(target, from_index),
        }
    }

    /// `first_geq` over an all-ones partition: the local values are the
    /// indices.
    fn all_ones_geq(&self, target: usize, from_index: usize) -> (r: Option<Position>)
        requires
            self.wf(),
            self.data is AllOnes,
            from_index <= self.len,
            forall|t: int| 0 <= t < from_index ==> #[trigger] self.local(t) < target,
        ensures
            match r {
                Some(p) => self.pos_ok(p) && from_index <= p.index && self.local(p.index as int)
                    >= target && forall|t: int| 0 <= t < p.index ==> #[trigger] self.local(t)
                    < target,
                None => forall|t: int| 0 <= t < self.len ==> #[trigger] self.local(t) < target,
            },
    {
        let ghost l = self.list@;
        let ghost u = self.pef_universe@;
        let ghost j = self.which@;
        proof {
            lemma_layout(u, l);
            lemma_locals(u, l, j);
        }
        proof {
            assert forall|t: int| 0 <= t < self.len implies #[trigger] self.local(t) == t by {
                lemma_part_all_ones(u, l, j, t);
            }
        }
        let local = if target > from_index {
            target
        } else {
            from_index
        };
        if local < self.len {
            proof {
                assert(self.local(local as int) == local);
                assert forall|t: int| 0 <= t < local implies #[trigger] self.local(t)
                    < target by {
                    if t >= from_index {
                        assert(self.local(t) == t);
                    }
                }
            }
            Some(Position { index: local, local, high_position: 0 })
        } else {
            proof {
                assert forall|t: int| 0 <= t < self.len implies #[trigger] self.local(t)
                    < target by {
                    if t >= from_index {
                        assert(self.local(t) == t);
                    }
                }
            }
            None
        }
    }

    /// `first_geq` over a bitmap partition: the next set bit at or after
    /// `target`, and its rank.
    fn bitmap_geq(&self, target: usize, from_index: usize) -> (r: Option<Position>)
        requires
            self.wf(),
            self.data is Bitmap,
            from_index <= self.len,
            forall|t: int| 0 <= t < from_index ==> #[trigger] self.local(t) < target,
        ensures
            match r {
                Some(p) => self.pos_ok(p) && from_index <= p.index && self.local(p.index as int)
                    >= target && forall|t: int| 0 <= t < p.index ==> #[trigger] self.local(t)
                    < target,
                None => forall|t: int| 0 <= t < self.len ==> #[trigger] self.local(t) < target,
            },
    {
        let ghost l = self.list@;
        let ghost u = self.pef_universe@;
        let ghost j = self.which@;
        proof {
            lemma_buf_bound(u, l);
            lemma_locals(u, l, j);
        }
        let at = match self.data {
            PartitionData::Bitmap { at } => at,
            _ => {
                proof {
                    assert(false);
                }
                0
            },
        };
        let ghost pos = |t: int| locals(l, j)(t) as int;
        proof {
            lemma_part_bitmap(u, l, j);
            assert(super::rank::increasing(pos, self.len as int));
        }
        let local = match find_next_one(self.buf, at, self.universe, target) {
            Some(p) => p,
            None => {
                proof {
                    if target < self.universe {
                        super::rank::lemma_sparse_none(
                            self.buf@,
                            8 * at,
                            self.universe as int,
                            pos,
                            self.len as int,
                            target as int,
                        );
                    }
                    lemma_count_below_split(pos, self.len as int, target as int);
                    assert forall|t: int| 0 <= t < self.len implies #[trigger] self.local(t)
                        < target by {
                        assert(pos(t) < self.universe);
                    }
                }
                return None;
            },
        };
        proof {
            super::rank::lemma_sparse_next(
                self.buf@,
                8 * at,
                self.universe as int,
                pos,
                self.len as int,
                target as int,
                local as int,
            );
            lemma_sparse_select(
                self.buf@,
                8 * at,
                self.universe as int,
                pos,
                self.len as int,
                local as int,
            );
            lemma_count_below_split(pos, self.len as int, target as int);
        }
        let index = super::rank::count_ones_before(self.buf, at, local);
        proof {
            let c = count_below(pos, self.len as int, target as int) as int;
            assert(pos(c) == local);
            assert(pos(index as int) == local);
            if c < index {
                assert(pos(c) < pos(index as int));
            } else if c > index {
                assert(pos(index as int) < pos(c));
            }
            assert(c == index);
            assert(self.local(index as int) == local);
            assert forall|t: int| 0 <= t < index implies #[trigger] self.local(t) < target by {
                assert(pos(t) < target);
            }
        }
        if index >= from_index {
            Some(Position { index, local, high_position: 0 })
        } else {
            proof {
                assert(self.local(index as int) >= target);
                assert(self.local(index as int) < target);
            }
            None
        }
    }

    /// The values whose high bits are in byte `b` of an Elias-Fano
    /// partition's high array, from `*index` on: the first at or after
    /// `from_index` that reaches `target`, or the count moved past the byte.
    fn ef_scan_byte(
        &self,
        byte: u8,
        b: usize,
        index: &mut usize,
        target: usize,
        from_index: usize,
        highs_at: usize,
        high_bits: usize,
    ) -> (r: Option<Position>)
        requires
            self.wf(),
            self.data matches PartitionData::EliasFano { highs_at: h, high_bits: hb, .. } && h
                == highs_at && hb == high_bits,
            8 * b < high_bits,
            sparse(
                self.buf@,
                8 * highs_at as int,
                high_bits as int,
                ef_high_pos(locals(self.list@, self.which@), part_low_width(self.list@, self.which@)),
                self.len as int,
            ),
            forall|p: int|
                0 <= p <= high_bits ==> #[trigger] ones(self.buf@, 8 * highs_at as int, p)
                    == count_below(
                    ef_high_pos(
                        locals(self.list@, self.which@),
                        part_low_width(self.list@, self.which@),
                    ),
                    self.len as int,
                    p,
                ),
            forall|t: nat| #[trigger] bitn(byte as nat, t) == (t < 8 && 8 * b + t < high_bits
                && bit_at(self.buf@, 8 * highs_at + 8 * b + t)),
            *old(index) == ones(self.buf@, 8 * highs_at as int, 8 * b as int),
            forall|t: int| from_index <= t < *old(index) ==> #[trigger] self.local(t) < target,
            forall|t: int| 0 <= t < from_index ==> #[trigger] self.local(t) < target,
        ensures
            match r {
                Some(p) => self.pos_ok(p) && from_index <= p.index && self.local(p.index as int)
                    >= target && forall|t: int| 0 <= t < p.index ==> #[trigger] self.local(t)
                    < target,
                None => {
                    &&& *final(index) == ones(self.buf@, 8 * highs_at as int, if 8 * b + 8 <= high_bits {
                        8 * b + 8
                    } else {
                        high_bits as int
                    })
                    &&& forall|t: int| from_index <= t < *final(index) ==> #[trigger] self.local(t)
                        < target
                },
            },
    {
        let ghost l = self.list@;
        let ghost j = self.which@;
        let ghost base = 8 * highs_at as int;
        let ghost lw = part_low_width(l, j);
        let ghost pos = ef_high_pos(locals(l, j), lw);
        let ghost len = self.len as int;
        let ghost m = if 8 * b + 8 <= high_bits {
            8int
        } else {
            high_bits - 8 * b
        };
        let mut k: usize = 0;
        while k < 8
            invariant
                self.wf(),
                l == self.list@,
                j == self.which@,
                self.data is EliasFano,
                lw == part_low_width(l, j),
                pos == ef_high_pos(locals(l, j), lw),
                base == 8 * highs_at,
                len == self.len,
                8 * b < high_bits,
                m == (if 8 * b + 8 <= high_bits {
                    8int
                } else {
                    high_bits - 8 * b
                }),
                sparse(self.buf@, base, high_bits as int, pos, len),
                forall|t: nat| #[trigger] bitn(byte as nat, t) == (t < 8 && 8 * b + t < high_bits
                    && bit_at(self.buf@, base + 8 * b + t)),
                k <= 8,
                *index == ones(self.buf@, base, 8 * b + if k < m {
                    k as int
                } else {
                    m
                }),
                forall|t: int| from_index <= t < *index ==> #[trigger] self.local(t) < target,
                forall|t: int| 0 <= t < from_index ==> #[trigger] self.local(t) < target,
                forall|p: int|
                    0 <= p <= high_bits ==> #[trigger] ones(self.buf@, base, p) == count_below(
                        pos,
                        len,
                        p,
                    ),
            decreases 8 - k,
        {
            proof {
                lemma_u8_bit(byte, k as u8);
            }
            if (byte >> k as u8) & 1 == 1 {
                let high_position = 8 * b + k;
                proof {
                    assert(bit_at(self.buf@, base + 8 * b + k));
                    assert(base + high_position == base + 8 * b + k);
                    assert(bit_at(self.buf@, base + high_position as int));
                    lemma_sparse_select(self.buf@, base, high_bits as int, pos, len, high_position as int);
                }
                if *index >= from_index {
                    let local = self.ef_local(*index, high_position);
                    if local >= target {
                        return Some(Position { index: *index, local, high_position });
                    }
                }
                *index = *index + 1;
            } else {
                proof {
                    if k < m {
                        assert(!bit_at(self.buf@, base + 8 * b + k));
                    }
                }
            }
            k = k + 1;
        }
        None
    }

    /// `first_geq` over an Elias-Fano partition: walk the high bits a byte
    /// at a time, counting values. A byte is passed over whole when all its
    /// values come before `from_index`, or when its last value's high part
    /// is already below the target's.
    #[verifier::spinoff_prover]
    #[verifier::rlimit(40)]
    fn find_ef_geq(&self, target: usize, from_index: usize) -> (r: Option<Position>)
        requires
            self.wf(),
            self.data is EliasFano,
            from_index <= self.len,
            forall|t: int| 0 <= t < from_index ==> #[trigger] self.local(t) < target,
        ensures
            match r {
                Some(p) => self.pos_ok(p) && from_index <= p.index && self.local(p.index as int)
                    >= target && forall|t: int| 0 <= t < p.index ==> #[trigger] self.local(t)
                    < target,
                None => forall|t: int| 0 <= t < self.len ==> #[trigger] self.local(t) < target,
            },
    {
        let ghost l = self.list@;
        let ghost u = self.pef_universe@;
        let ghost j = self.which@;
        let (highs_at, low_width, high_bits) = match self.data {
            PartitionData::EliasFano { lows_at, highs_at, low_width, high_bits } => (
                highs_at,
                low_width,
                high_bits,
            ),
            _ => {
                proof {
                    assert(false);
                }
                (0, 0, 0)
            },
        };
        let ghost lw = low_width as nat;
        let ghost pos = ef_high_pos(locals(l, j), lw);
        let ghost base = 8 * highs_at as int;
        let ghost len = self.len as int;
        proof {
            lemma_part_ef(u, l, j);
            lemma_buf_bound(u, l);
            lemma_locals(u, l, j);
            lemma_pow2_pos(lw);
            lemma_sparse_ones(self.buf@, base, high_bits as int, pos, len);
            lemma_sparse_total(self.buf@, base, high_bits as int, pos, len);
            lemma_u64_shr_is_div(target as u64, low_width as u64);
        }
        let target_high = (target as u64) >> low_width as u64;
        let nbytes = high_bits / 8 + if high_bits % 8 != 0 {
            1
        } else {
            0
        };
        let mut index: usize = 0;
        let mut b: usize = 0;
        while b < nbytes
            invariant
                self.wf(),
                l == self.list@,
                u == self.pef_universe@,
                j == self.which@,
                self.data == (PartitionData::EliasFano {
                    lows_at: part_at(u, l, j) as usize,
                    highs_at,
                    low_width,
                    high_bits,
                }),
                lw == low_width,
                lw == part_low_width(l, j),
                pos == ef_high_pos(locals(l, j), lw),
                base == 8 * highs_at,
                len == self.len,
                pow2(lw) > 0,
                target_high as nat == target as nat / pow2(lw),
                nbytes == ceil8(high_bits as int),
                highs_at + nbytes <= self.buf@.len(),
                8 * self.buf@.len() <= usize::MAX,
                sparse(self.buf@, base, high_bits as int, pos, len),
                forall|p: int|
                    0 <= p <= high_bits ==> #[trigger] ones(self.buf@, base, p) == count_below(
                        pos,
                        len,
                        p,
                    ),
                ones(self.buf@, base, high_bits as int) == len,
                forall|a: int, c: int|
                    0 <= a < c < len ==> #[trigger] self.local(a) < #[trigger] self.local(c),
                b <= nbytes,
                8 * b <= high_bits + 7,
                b < nbytes ==> 8 * b < high_bits,
                index == ones(self.buf@, base, if 8 * b <= high_bits {
                    8 * b as int
                } else {
                    high_bits as int
                }),
                forall|t: int| from_index <= t < index ==> #[trigger] self.local(t) < target,
                forall|t: int| 0 <= t < from_index ==> #[trigger] self.local(t) < target,
            decreases nbytes - b,
        {
            let byte = range_byte(self.buf, highs_at, high_bits, b);
            let ghost lim = if 8 * b + 8 <= high_bits {
                8 * b + 8
            } else {
                high_bits as int
            };
            let ghost m = lim - 8 * b;
            proof {
                lemma_count_below_le(pos, len, lim);
                super::rank::lemma_ones_in_le(byte as nat, 8);
            }
            let count = count_ones_u8(byte) as usize;
            if index + count <= from_index {
                index = index + count;
                b = b + 1;
                continue;
            }
            if byte != 0 {
                let lz = byte.leading_zeros();
                proof {
                    axiom_u8_leading_zeros(byte);
                }
                let top = 7 - lz as usize;
                let last_position = 8 * b + top;
                proof {
                    lemma_u8_bit(byte, top as u8);
                    assert(bitn(byte as nat, top as nat));
                    assert forall|q: int| last_position + 1 <= q < lim implies !#[trigger] bit_at(
                        self.buf@,
                        base + q,
                    ) by {
                        let k = q - 8 * b;
                        lemma_u8_bit(byte, k as u8);
                        assert((byte >> (k as u8)) & 1u8 == 0u8);
                        assert(bitn(byte as nat, k as nat) == (k < 8 && 8 * b + k < high_bits
                            && bit_at(self.buf@, 8 * highs_at + 8 * b + k)));
                        assert(base + q == 8 * highs_at + 8 * b + k);
                    }
                    assert(bit_at(self.buf@, 8 * highs_at + 8 * b + top));
                    assert(base + last_position == 8 * highs_at + 8 * b + top);
                    assert(bit_at(self.buf@, base + last_position as int));
                    lemma_sparse_gap(self.buf@, base, high_bits as int, pos, len, last_position + 1, lim);
                    assert(is_pos(pos, len, last_position as int));
                    lemma_count_below_step(pos, len, last_position as int);
                    lemma_sparse_select(self.buf@, base, high_bits as int, pos, len, last_position as int);
                }
                let last_high = last_position - (index + count - 1);
                if (last_high as u64) < target_high {
                    proof {
                        let last = index + count - 1;
                        assert(last_high == locals(l, j)(last) / pow2(lw));
                        assert forall|t: int| from_index <= t < index + count implies #[trigger] self.local(
                            t,
                        ) < target by {
                            if t >= index {
                                if t < last {
                                    assert(self.local(t) < self.local(last));
                                }
                                vstd::arithmetic::div_mod::lemma_div_is_ordered(
                                    self.local(t) as int,
                                    self.local(last) as int,
                                    pow2(lw) as int,
                                );
                                if self.local(t) >= target {
                                    vstd::arithmetic::div_mod::lemma_div_is_ordered(
                                        target as int,
                                        self.local(t) as int,
                                        pow2(lw) as int,
                                    );
                                }
                            }
                        }
                    }
                    index = index + count;
                    b = b + 1;
                    continue;
                }
            }
            match self.ef_scan_byte(byte, b, &mut index, target, from_index, highs_at, high_bits) {
                Some(position) => {
                    return Some(position);
                },
                None => {},
            }
            b = b + 1;
        }
        proof {
            assert forall|t: int| 0 <= t < len implies #[trigger] self.local(t) < target by {
                if t >= from_index {
                    assert(self.local(t) < target);
                }
            }
        }
        None
    }
}

/// Append the `n` values of the encoded list to `out`.
pub fn decode_list(universe: u32, n: usize, buf: &[u8], out: &mut Vec<u32>, Ghost(l): Ghost<Seq<u32>>)
    requires
        encodes(universe, l, buf@),
        l.len() == n,
    ensures
        final(out)@ == old(out)@ + l,
{
    let ghost start = out@;
    if n == 0 {
        assert(start + l =~= start);
        return;
    }
    let layout = Layout::new(universe, n, buf, Ghost(l));
    let mut j: usize = 0;
    while j < layout.partition_count
        invariant
            layout.wf(),
            layout.list@ == l,
            layout.universe@ == universe,
            l.len() == n,
            j <= layout.partition_count,
            j < layout.partition_count ==> 128 * j < n,
            out@ == start + l.subrange(0, if 128 * j < n {
                128 * j as int
            } else {
                n as int
            }),
        decreases layout.partition_count - j,
    {
        let partition = layout.partition(j);
        proof {
            lemma_partition(universe, l, j as int);
        }
        let mut position = partition.position_at(0);
        loop
            invariant_except_break
                out@ == start + l.subrange(0, 128 * j + position.index),
            invariant
                partition.wf(),
                partition.which@ == j,
                partition.list@ == l,
                partition.pef_universe@ == universe,
                partition.pos_ok(position),
                128 * j + partition.len <= n,
            ensures
                out@ == start + l.subrange(0, 128 * j + partition.len),
            decreases partition.len - position.index,
        {
            proof {
                partition.lemma_value_pub(position.index as int);
            }
            out.push((partition.start + position.local as u64) as u32);
            proof {
                assert(out@ =~= start + l.subrange(0, 128 * j + position.index + 1));
            }
            match partition.next_after(&position) {
                Some(next) => {
                    position = next;
                },
                None => {
                    break;
                },
            }
        }
        proof {
            lemma_partition(universe, l, j as int);
            if j + 1 < layout.partition_count {
                lemma_partition(universe, l, j + 1);
            }
        }
        j = j + 1;
    }
    proof {
        assert(l.subrange(0, n as int) =~= l);
    }
}

/// Value `index` of the encoded list, `None` past its end.
pub fn get_value(universe: u32, n: usize, buf: &[u8], index: usize, Ghost(l): Ghost<Seq<u32>>) -> (r:
    Option<u32>)
    requires
        encodes(universe, l, buf@),
        l.len() == n,
    ensures
        r == (if index < n {
            Some(l[index as int])
        } else {
            None::<u32>
        }),
{
    if index >= n {
        return None;
    }
    let layout = Layout::new(universe, n, buf, Ghost(l));
    let j = index / PARTITION_SIZE;
    proof {
        lemma_fundamental_div_mod(index as int, 128);
        lemma_fundamental_div_mod((n + 127) as int, 128);
        lemma_partition(universe, l, j as int);
    }
    let partition = layout.partition(j);
    partition.value_at(index % PARTITION_SIZE)
}

} // verus!
