//! A sorted, structure-of-arrays price ladder.
//!
//! Books are shallow: the median side is two levels deep. So the levels are kept
//! sorted and contiguous, and scanned. Prices live in one `Vec` and sizes in
//! another, so the scan, which reads only prices, touches as few cache lines as
//! possible. `max()` and `min()` are the last and first elements: no search at
//! all.
use vstd::prelude::*;

use crate::book::ladder::{
    add_up, is_ladder, ladder, lemma_at, lemma_ends, lemma_measure, set_in,
};
use crate::book::levels::{lists_levels, Levels};
use crate::deep::price::Price;

verus! {

/// Levels held sorted ascending by price, prices and sizes in parallel arrays.
#[derive(Debug, Clone)]
pub struct SortedLevels {
    /// Ascending, no duplicates. Parallel to `sizes`.
    prices: Vec<Price>,
    sizes: Vec<u32>,
}

impl Default for SortedLevels {
    fn default() -> (r: SortedLevels)
        ensures
            r.wf(),
            r.view() == Map::<i64, u32>::empty(),
    {
        let r = SortedLevels { prices: Vec::new(), sizes: Vec::new() };
        assert(r.view() =~= Map::<i64, u32>::empty());
        r
    }
}

/// Pair up the arrays of a ladder.
pub fn zip(prices: &[Price], sizes: &[u32]) -> (r: Vec<(Price, u32)>)
    requires
        is_ladder(prices@, sizes@),
    ensures
        r@.len() == prices@.len(),
        forall|i: int| 0 <= i < r@.len() ==> #[trigger] r@[i] == (prices@[i], sizes@[i]),
        lists_levels(r@, ladder(prices@, sizes@)),
{
    let mut out: Vec<(Price, u32)> = Vec::new();
    let mut i: usize = 0;
    while i < prices.len()
        invariant
            i <= prices@.len(),
            prices@.len() == sizes@.len(),
            out@.len() == i,
            forall|j: int| 0 <= j < i ==> (#[trigger] out@[j]) == (prices@[j], sizes@[j]),
        decreases prices@.len() - i,
    {
        out.push((prices[i], sizes[i]));
        i = i + 1;
    }
    proof {
        lemma_measure(prices@, sizes@);
        assert forall|a: int| 0 <= a < out@.len() implies ladder(prices@, sizes@).contains_pair(
            (#[trigger] out@[a]).0.0,
            out@[a].1,
        ) by {
            lemma_at(prices@, sizes@, a);
        }
    }
    out
}

impl SortedLevels {
    /// Levels from the lowest price up: of a side of asks, from the best ask.
    pub fn ascending(&self) -> (r: Vec<(Price, u32)>)
        requires
            self.wf(),
        ensures
            lists_levels(r@, self.view()),
    {
        zip(self.prices.as_slice(), self.sizes.as_slice())
    }

    /// Levels from the highest price down: of a side of bids, from the best bid.
    pub fn descending(&self) -> (r: Vec<(Price, u32)>)
        requires
            self.wf(),
        ensures
            lists_levels(r@.reverse(), self.view()),
    {
        let up = self.ascending();
        let mut r: Vec<(Price, u32)> = Vec::new();
        let mut left: usize = up.len();
        while left > 0
            invariant
                left <= up@.len(),
                r@ == up@.skip(left as int).reverse(),
            decreases left,
        {
            left = left - 1;
            r.push(up[left]);
            assert(r@ =~= up@.skip(left as int).reverse());
        }
        assert(r@.reverse() =~= up@);
        r
    }
}

impl Levels for SortedLevels {
    closed spec fn view(&self) -> Map<i64, u32> {
        ladder(self.prices@, self.sizes@)
    }

    closed spec fn wf(&self) -> bool {
        is_ladder(self.prices@, self.sizes@)
    }

    proof fn lemma_populated(&self) {
        lemma_measure(self.prices@, self.sizes@);
    }

    fn empty() -> (r: SortedLevels) {
        SortedLevels::default()
    }

    fn set(&mut self, price: Price, size: u32) {
        set_in(&mut self.prices, &mut self.sizes, price, size);
    }

    fn max(&self) -> (r: Option<(Price, u32)>) {
        proof {
            lemma_ends(self.prices@, self.sizes@);
        }
        let n: usize = self.prices.len();
        if n == 0 {
            return None;
        }
        Some((self.prices[n - 1], self.sizes[n - 1]))
    }

    fn min(&self) -> (r: Option<(Price, u32)>) {
        proof {
            lemma_ends(self.prices@, self.sizes@);
        }
        if self.prices.len() == 0 {
            return None;
        }
        Some((self.prices[0], self.sizes[0]))
    }

    fn len(&self) -> (r: usize) {
        proof {
            lemma_measure(self.prices@, self.sizes@);
        }
        self.prices.len()
    }

    fn total_size(&self) -> (r: u64) {
        proof {
            lemma_measure(self.prices@, self.sizes@);
        }
        add_up(self.sizes.as_slice())
    }

    fn levels(&self) -> (r: Vec<(Price, u32)>) {
        self.ascending()
    }

    fn clear(&mut self) {
        self.prices.clear();
        self.sizes.clear();
        assert(self.view() =~= Map::<i64, u32>::empty());
    }
}

}
