//! Histograms of tricks taken

use vstd::prelude::*;
use crate::dds::TricksPerStrain;
use crate::deal::Seat;

verus! {

/// The sum of `h[i..]`
pub open spec fn suffix_sum(h: Seq<usize>, i: int) -> int
    decreases h.len() - i,
{
    if i < 0 || i >= h.len() {
        0
    } else {
        h[i] + suffix_sum(h, i + 1)
    }
}

/// Cumulative sums from the top: entry `i` counts the values of `i` or more
pub fn rev_cumsum(histogram: [usize; 14]) -> (r: [usize; 14])
    requires
        suffix_sum(histogram@, 0) <= usize::MAX,
    ensures
        forall|i: int| 0 <= i < 14 ==> #[trigger] r@[i] == suffix_sum(histogram@, i),
{
    let mut acc: usize = 0;
    let mut result: [usize; 14] = [0; 14];
    let mut i: usize = 14;
    proof {
        lemma_suffix_sum_monotone(histogram@, 0);
    }
    while i > 0
        invariant
            i <= 14,
            acc == suffix_sum(histogram@, i as int),
            forall|j: int| 0 <= j <= 14 ==> #[trigger] suffix_sum(histogram@, j) <= suffix_sum(
                histogram@,
                0,
            ),
            suffix_sum(histogram@, 0) <= usize::MAX,
            forall|j: int| i <= j < 14 ==> #[trigger] result@[j] == suffix_sum(histogram@, j),
        decreases i,
    {
        i -= 1;
        assert(suffix_sum(histogram@, i as int) == histogram@[i as int] + suffix_sum(
            histogram@,
            i + 1,
        ));
        acc += histogram[i];
        result[i] = acc;
    }
    result
}

/// Every suffix sum is at most the whole sum
pub proof fn lemma_suffix_sum_monotone(h: Seq<usize>, i: int)
    requires
        0 <= i,
    ensures
        forall|j: int| i <= j <= h.len() ==> #[trigger] suffix_sum(h, j) <= suffix_sum(h, i),
    decreases h.len() - i,
{
    if i < h.len() {
        lemma_suffix_sum_monotone(h, i + 1);
    }
}

/// Histograms of the tricks in one strain over many deals
#[derive(Clone, Copy, Debug, Default, PartialEq, Eq)]
pub struct Histogram {
    /// How often a player takes each number of tricks
    pub each: [usize; 14],
    /// How often a pair takes each number of tricks, played by the better
    /// of the two partners
    pub right: [usize; 14],
    /// How often the best seat of a deal takes each number of tricks
    pub max: [usize; 14],
}

/// The larger of two integers
pub open spec fn max2(a: int, b: int) -> int {
    if a < b {
        b
    } else {
        a
    }
}

/// The tricks of each seat in the order north, east, south, west
pub open spec fn seat_tricks(row: TricksPerStrain) -> Seq<int> {
    seq![
        row.tricks(Seat::North) as int,
        row.tricks(Seat::East) as int,
        row.tricks(Seat::South) as int,
        row.tricks(Seat::West) as int,
    ]
}

/// The number of seats among the four that take `k` tricks
pub open spec fn count_of(t: Seq<int>, k: int) -> int {
    (if t[0] == k {
        1int
    } else {
        0
    }) + (if t[1] == k {
        1int
    } else {
        0
    }) + (if t[2] == k {
        1int
    } else {
        0
    }) + (if t[3] == k {
        1int
    } else {
        0
    })
}

impl Histogram {
    /// An empty histogram
    pub fn new() -> (r: Histogram)
        ensures
            forall|k: int| 0 <= k < 14 ==> #[trigger] r.each@[k] == 0 && r.right@[k] == 0 && r.max@[k]
                == 0,
    {
        Histogram { each: [0; 14], right: [0; 14], max: [0; 14] }
    }

    /// Count the tricks of one deal
    pub fn record(&mut self, row: TricksPerStrain)
        requires
            forall|k: int| 0 <= k < 4 ==> #[trigger] seat_tricks(row)[k] <= 13,
            forall|k: int|
                0 <= k < 14 ==> #[trigger] old(self).each@[k] + 4 <= usize::MAX && old(self).right@[k]
                    + 2 <= usize::MAX && old(self).max@[k] + 1 <= usize::MAX,
        ensures
            forall|k: int|
                0 <= k < 14 ==> {
                    let t = seat_tricks(row);
                    &&& #[trigger] final(self).each@[k] == old(self).each@[k] + count_of(t, k)
                    &&& final(self).right@[k] == old(self).right@[k] + (if max2(t[0], t[2]) == k {
                        1int
                    } else {
                        0
                    }) + (if max2(t[1], t[3]) == k {
                        1int
                    } else {
                        0
                    })
                    &&& final(self).max@[k] == old(self).max@[k] + (if max2(
                        max2(t[0], t[1]),
                        max2(t[2], t[3]),
                    ) == k {
                        1int
                    } else {
                        0
                    })
                },
    {
        let ghost t = seat_tricks(row);
        assert(t[0] <= 13 && t[1] <= 13 && t[2] <= 13 && t[3] <= 13);
        let n = row.at(Seat::North) as usize;
        let e = row.at(Seat::East) as usize;
        let s = row.at(Seat::South) as usize;
        let w = row.at(Seat::West) as usize;
        self.each[n] = self.each[n] + 1;
        self.each[e] = self.each[e] + 1;
        self.each[s] = self.each[s] + 1;
        self.each[w] = self.each[w] + 1;
        let ns = if n < s {
            s
        } else {
            n
        };
        let ew = if e < w {
            w
        } else {
            e
        };
        self.right[ns] = self.right[ns] + 1;
        self.right[ew] = self.right[ew] + 1;
        let top = if ns < ew {
            ew
        } else {
            ns
        };
        self.max[top] = self.max[top] + 1;
    }
}

} // verus!
