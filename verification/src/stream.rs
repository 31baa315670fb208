//! Dataset container: a named bag of integer lists sharing one universe.
//!
//! Sorted datasets model posting lists (docIDs, positions); unsorted ones
//! model small-integer payloads (term frequencies, position deltas, doc
//! values). The on-disk `.ipb` layout lives in [`crate::ipb`].

use vstd::prelude::*;

verus! {

/// What a dataset models; decides which operations the harness runs on it.
#[derive(Clone, Copy, Debug, PartialEq, Eq, Structural)]
pub enum Kind {
    /// Strictly increasing values in `[0, universe)`. Skip/seek and
    /// intersection are meaningful.
    Sorted,
    /// Arbitrary non-negative values; only bulk encode/decode and random
    /// access apply.
    Unsorted,
}

/// Provenance and shape of a dataset, stored in the file header.
pub struct Meta {
    pub name: String,
    pub kind: Kind,
    /// Exclusive upper bound on values. For sorted lists this is the
    /// document count.
    pub universe: u32,
    /// Free-form description of how the data was produced.
    pub source: String,
}

pub struct Dataset {
    pub meta: Meta,
    pub lists: Vec<Vec<u32>>,
}

/// Every pair of positions is strictly ordered: the list is strictly increasing.
pub open spec fn strictly_increasing(s: Seq<u32>) -> bool {
    forall|i: int, j: int| 0 <= i < j < s.len() ==> s[i] < s[j]
}

/// Every value lies below `universe`.
pub open spec fn below(s: Seq<u32>, universe: u32) -> bool {
    forall|i: int| 0 <= i < s.len() ==> s[i] < universe
}

/// The invariants the codecs rely on, for one list.
pub open spec fn list_ok(kind: Kind, universe: u32, s: Seq<u32>) -> bool {
    &&& below(s, universe)
    &&& (kind == Kind::Sorted ==> strictly_increasing(s))
}

/// Sum of the lengths of the first `k` lists.
pub open spec fn total_len(lists: Seq<Vec<u32>>, k: int) -> int
    decreases k,
{
    if k <= 0 {
        0
    } else {
        total_len(lists, k - 1) + lists[k - 1]@.len()
    }
}

/// Why a dataset failed [`Dataset::validate`]: the first offending list.
#[derive(Clone, Copy, Debug, PartialEq, Eq, Structural)]
pub enum ValidateError {
    /// List `list` holds `value`, which is not below the universe.
    AboveUniverse { list: usize, value: u32 },
    /// List `list` is in a sorted dataset but is not strictly increasing.
    NotIncreasing { list: usize },
}

proof fn lemma_total_len_mono(lists: Seq<Vec<u32>>, a: int, b: int)
    requires
        0 <= a <= b <= lists.len(),
    ensures
        total_len(lists, a) <= total_len(lists, b),
    decreases b - a,
{
    if a < b {
        lemma_total_len_mono(lists, a, b - 1);
    }
}

impl Dataset {
    pub fn new(name: &str, kind: Kind, universe: u32, source: &str) -> (r: Self)
        ensures
            r.meta.name@ == name@,
            r.meta.kind == kind,
            r.meta.universe == universe,
            r.meta.source@ == source@,
            r.lists@.len() == 0,
    {
        Dataset {
            meta: Meta { name: name.to_owned(), kind, universe, source: source.to_owned() },
            lists: Vec::new(),
        }
    }

    /// Number of integers over all lists.
    pub fn total_ints(&self) -> (r: usize)
        requires
            total_len(self.lists@, self.lists@.len() as int) <= usize::MAX,
        ensures
            r == total_len(self.lists@, self.lists@.len() as int),
    {
        let mut sum: usize = 0;
        let mut i: usize = 0;
        while i < self.lists.len()
            invariant
                i <= self.lists@.len(),
                sum == total_len(self.lists@, i as int),
                total_len(self.lists@, self.lists@.len() as int) <= usize::MAX,
            decreases self.lists@.len() - i,
        {
            proof {
                lemma_total_len_mono(self.lists@, i + 1, self.lists@.len() as int);
            }
            sum = sum + self.lists[i].len();
            i = i + 1;
        }
        sum
    }

    /// Validate the invariants the codecs rely on: sorted lists are strictly
    /// increasing, and every value is below the universe. The error names the
    /// first list that breaks either rule; within a list, a value at or above
    /// the universe is reported before a broken order.
    pub fn validate(&self) -> (r: Result<(), ValidateError>)
        ensures
            r is Ok <==> forall|i: int|
                0 <= i < self.lists@.len() ==> #[trigger] list_ok(
                    self.meta.kind,
                    self.meta.universe,
                    self.lists@[i]@,
                ),
            r matches Err(ValidateError::AboveUniverse { list, value }) ==> {
                &&& list < self.lists@.len()
                &&& value >= self.meta.universe
                &&& self.lists@[list as int]@.contains(value)
                &&& forall|i: int|
                    0 <= i < list ==> #[trigger] list_ok(
                        self.meta.kind,
                        self.meta.universe,
                        self.lists@[i]@,
                    )
            },
            r matches Err(ValidateError::NotIncreasing { list }) ==> {
                &&& list < self.lists@.len()
                &&& self.meta.kind == Kind::Sorted
                &&& below(self.lists@[list as int]@, self.meta.universe)
                &&& !strictly_increasing(self.lists@[list as int]@)
                &&& forall|i: int|
                    0 <= i < list ==> #[trigger] list_ok(
                        self.meta.kind,
                        self.meta.universe,
                        self.lists@[i]@,
                    )
            },
    {
        let mut i: usize = 0;
        while i < self.lists.len()
            invariant
                i <= self.lists@.len(),
                forall|k: int|
                    0 <= k < i ==> #[trigger] list_ok(
                        self.meta.kind,
                        self.meta.universe,
                        self.lists@[k]@,
                    ),
            decreases self.lists@.len() - i,
        {
            let list = &self.lists[i];
            match max_value(list.as_slice()) {
                Some(max) => {
                    if max >= self.meta.universe {
                        proof {
                            let w = choose|w: int| 0 <= w < list@.len() && list@[w] == max;
                            assert(!below(list@, self.meta.universe));
                            assert(!list_ok(self.meta.kind, self.meta.universe, self.lists@[i as int]@));
                        }
                        return Err(ValidateError::AboveUniverse { list: i, value: max });
                    }
                },
                None => {},
            }
            if self.meta.kind == Kind::Sorted && !is_strictly_increasing(list.as_slice()) {
                assert(!list_ok(self.meta.kind, self.meta.universe, self.lists@[i as int]@));
                return Err(ValidateError::NotIncreasing { list: i });
            }
            i = i + 1;
        }
        Ok(())
    }
}

/// Largest value of a list, `None` for the empty list.
pub fn max_value(s: &[u32]) -> (r: Option<u32>)
    ensures
        s@.len() == 0 <==> r is None,
        r matches Some(m) ==> s@.contains(m) && forall|i: int| 0 <= i < s@.len() ==> s@[i] <= m,
{
    if s.len() == 0 {
        return None;
    }
    let mut m = s[0];
    let mut i: usize = 1;
    assert(s@.subrange(0, 1)[0] == m);
    while i < s.len()
        invariant
            1 <= i <= s@.len(),
            s@.subrange(0, i as int).contains(m),
            forall|k: int| 0 <= k < i ==> s@[k] <= m,
        decreases s@.len() - i,
    {
        if s[i] > m {
            m = s[i];
            assert(s@.subrange(0, i + 1)[i as int] == m);
        } else {
            let ghost w = choose|w: int| 0 <= w < i && s@.subrange(0, i as int)[w] == m;
            assert(s@.subrange(0, i + 1)[w] == m);
        }
        i = i + 1;
    }
    let ghost w = choose|w: int| 0 <= w < i && s@.subrange(0, i as int)[w] == m;
    assert(s@[w] == m);
    Some(m)
}

/// Whether each value is below its successor.
pub fn is_strictly_increasing(s: &[u32]) -> (r: bool)
    ensures
        r == strictly_increasing(s@),
{
    let mut i: usize = 1;
    while i < s.len()
        invariant
            1 <= i,
            forall|a: int, b: int| 0 <= a < b < i && b < s@.len() ==> s@[a] < s@[b],
        decreases s@.len() - i,
    {
        if s[i - 1] >= s[i] {
            return false;
        }
        assert forall|a: int, b: int| 0 <= a < b < i + 1 && b < s@.len() implies s@[a] < s@[b] by {
            if b == i && a < i - 1 {
                assert(s@[a] < s@[i - 1]);
            }
        }
        i = i + 1;
    }
    true
}

} // verus!
