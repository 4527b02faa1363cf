//! Levels stored *inline*, so reaching them costs no extra pointer chase.
//!
//! [`SortedLevels`](crate::book::SortedLevels) holds two `Vec`s, so reading a
//! price means loading the book entry, then dereferencing a heap pointer into
//! memory allocated at some unrelated moment, then doing it again for the sizes.
//! Here the levels live in the struct.
//!
//! `INLINE = 8` comes from the depth distribution: the median is 2 and the 90th
//! percentile is 5, and eight prices are exactly one 64-byte cache line. Beyond
//! that the level set *spills wholesale* to heap vectors rather than straddling
//! both.
use vstd::prelude::*;
use vstd::slice::slice_subrange;

use crate::book::ladder::{
    add_up, find, is_ladder, ladder, lemma_absent, lemma_ends, lemma_insert, lemma_measure,
    lemma_remove, lemma_update, set_in,
};
use crate::book::levels::{set_level, Levels};
use crate::book::sorted::zip;
use crate::deep::price::Price;

verus! {

/// Inline capacity. Eight `Price` values are one cache line.
pub const INLINE: usize = 8;

#[derive(Debug, Clone)]
enum Storage {
    /// Entirely inline. `n` slots of `prices`/`sizes` are live, sorted ascending.
    Inline { n: u8, prices: [Price; INLINE], sizes: [u32; INLINE] },
    /// Deeper than `INLINE`. All levels live here; none remain inline.
    Spilled { prices: Vec<Price>, sizes: Vec<u32> },
}

/// Sorted levels, inline until they outgrow [`INLINE`].
#[derive(Debug, Clone)]
pub struct InlineLevels {
    storage: Storage,
}

impl Storage {
    /// The live prices.
    spec fn prices(self) -> Seq<Price> {
        match self {
            Storage::Inline { n, prices, .. } => prices@.take(n as int),
            Storage::Spilled { prices, .. } => prices@,
        }
    }

    /// The live sizes.
    spec fn sizes(self) -> Seq<u32> {
        match self {
            Storage::Inline { n, sizes, .. } => sizes@.take(n as int),
            Storage::Spilled { sizes, .. } => sizes@,
        }
    }

    spec fn wf(self) -> bool {
        &&& self matches Storage::Inline { n, .. } ==> n <= INLINE
        &&& is_ladder(self.prices(), self.sizes())
    }
}

impl Default for InlineLevels {
    fn default() -> (r: InlineLevels)
        ensures
            r.wf(),
            r.view() == Map::<i64, u32>::empty(),
            r.inline(),
    {
        let r = InlineLevels {
            storage: Storage::Inline {
                n: 0,
                prices: [Price(0); INLINE],
                sizes: [0; INLINE],
            },
        };
        assert(r.view() =~= Map::<i64, u32>::empty());
        r
    }
}

/// Move `a[i..n]` up by one slot.
fn open_gap<T: Copy>(a: &mut [T; INLINE], i: usize, n: usize)
    requires
        i <= n < INLINE,
    ensures
        forall|j: int| 0 <= j <= i ==> final(a)@[j] == old(a)@[j],
        forall|j: int| i < j <= n ==> final(a)@[j] == old(a)@[j - 1],
{
    let mut k: usize = n;
    while k > i
        invariant
            i <= k <= n < INLINE,
            forall|j: int| 0 <= j <= k ==> a@[j] == old(a)@[j],
            forall|j: int| k < j <= n ==> a@[j] == old(a)@[j - 1],
        decreases k,
    {
        let v = a[k - 1];
        a[k] = v;
        k = k - 1;
    }
}

/// Move `a[i + 1..n]` down by one slot.
fn close_gap<T: Copy>(a: &mut [T; INLINE], i: usize, n: usize)
    requires
        i < n <= INLINE,
    ensures
        forall|j: int| 0 <= j < i ==> final(a)@[j] == old(a)@[j],
        forall|j: int| i <= j < n - 1 ==> final(a)@[j] == old(a)@[j + 1],
{
    let mut k: usize = i;
    while k + 1 < n
        invariant
            i <= k < n <= INLINE,
            forall|j: int| 0 <= j < i ==> a@[j] == old(a)@[j],
            forall|j: int| i <= j < k ==> a@[j] == old(a)@[j + 1],
            forall|j: int| k <= j < n ==> a@[j] == old(a)@[j],
        decreases n - k,
    {
        let v = a[k + 1];
        a[k] = v;
        k = k + 1;
    }
}

/// Write a size at a price in a ladder kept in the first `n` slots of two
/// arrays, which must have room if the price is new.
fn set_inline(
    n: &mut u8,
    prices: &mut [Price; INLINE],
    sizes: &mut [u32; INLINE],
    price: Price,
    size: u32,
)
    requires
        *old(n) <= INLINE,
        is_ladder(old(prices)@.take(*old(n) as int), old(sizes)@.take(*old(n) as int)),
        *old(n) < INLINE || size == 0 || exists|i: int|
            0 <= i < *old(n) && #[trigger] old(prices)@[i] == price,
    ensures
        *final(n) <= INLINE,
        is_ladder(final(prices)@.take(*final(n) as int), final(sizes)@.take(*final(n) as int)),
        ladder(final(prices)@.take(*final(n) as int), final(sizes)@.take(*final(n) as int))
            == set_level(
            ladder(old(prices)@.take(*old(n) as int), old(sizes)@.take(*old(n) as int)),
            price,
            size,
        ),
{
    let len: usize = *n as usize;
    let ghost p = prices@.take(len as int);
    let ghost s = sizes@.take(len as int);
    let all: &[Price] = &*prices;
    let live = slice_subrange(all, 0, len);
    assert(live@ =~= p);
    match find(live, price) {
        Ok(i) => {
            if size == 0 {
                close_gap(prices, i, len);
                close_gap(sizes, i, len);
                *n = *n - 1;
                proof {
                    lemma_remove(p, s, i as int);
                    assert(prices@.take(len - 1) =~= p.remove(i as int));
                    assert(sizes@.take(len - 1) =~= s.remove(i as int));
                }
            } else {
                sizes[i] = size;
                proof {
                    lemma_update(p, s, i as int, size);
                    assert(sizes@.take(len as int) =~= s.update(i as int, size));
                }
            }
        },
        Err(i) => {
            if size == 0 {
                proof {
                    lemma_absent(p, s, i as int, price);
                }
            } else {
                assert(len < INLINE) by {
                    if len == INLINE {
                        let j = choose|j: int|
                            0 <= j < *old(n) && #[trigger] old(prices)@[j] == price;
                        assert(p[j] == price);
                    }
                }
                open_gap(prices, i, len);
                open_gap(sizes, i, len);
                prices[i] = price;
                sizes[i] = size;
                *n = *n + 1;
                proof {
                    lemma_insert(p, s, i as int, price, size);
                    assert(prices@.take(len + 1) =~= p.insert(i as int, price));
                    assert(sizes@.take(len + 1) =~= s.insert(i as int, size));
                }
            }
        },
    }
}

impl InlineLevels {
    /// Whether every level is held inline.
    pub closed spec fn inline(self) -> bool {
        self.storage is Inline
    }

    /// True while every level is held inline.
    pub fn is_inline(&self) -> (r: bool)
        ensures
            r == self.inline(),
    {
        match &self.storage {
            Storage::Inline { .. } => true,
            Storage::Spilled { .. } => false,
        }
    }

    /// The levels themselves, wherever they are held.
    fn live(&self) -> (r: (&[Price], &[u32]))
        requires
            self.wf(),
        ensures
            r.0@ == self.storage.prices(),
            r.1@ == self.storage.sizes(),
    {
        match &self.storage {
            Storage::Inline { n, prices, sizes } => {
                let p: &[Price] = prices;
                let s: &[u32] = sizes;
                let len: usize = *n as usize;
                let r = (slice_subrange(p, 0, len), slice_subrange(s, 0, len));
                assert(r.0@ =~= self.storage.prices());
                assert(r.1@ =~= self.storage.sizes());
                r
            },
            Storage::Spilled { prices, sizes } => (prices.as_slice(), sizes.as_slice()),
        }
    }

    /// Move an inline set to the heap to make room for one more level.
    fn spill(&mut self)
        requires
            old(self).wf(),
        ensures
            final(self).wf(),
            !final(self).inline(),
            final(self).view() == old(self).view(),
    {
        if let Storage::Inline { .. } = &self.storage {
            let (p, s) = self.live();
            let prices = vstd::slice::slice_to_vec(p);
            let sizes = vstd::slice::slice_to_vec(s);
            self.storage = Storage::Spilled { prices, sizes };
        }
    }

    /// Whether writing `size` at `price` needs a slot the inline arrays lack.
    fn needs_spill(&self, price: Price, size: u32) -> (r: bool)
        requires
            self.wf(),
        ensures
            r <==> size != 0 && self.inline() && self.view().dom().len() == INLINE
                && !self.view().contains_key(price.0),
    {
        let (p, s) = self.live();
        proof {
            lemma_measure(p@, s@);
        }
        if !self.is_inline() || size == 0 || p.len() != INLINE {
            return false;
        }
        match find(p, price) {
            Ok(i) => {
                proof {
                    crate::book::ladder::lemma_at(p@, s@, i as int);
                }
                false
            },
            Err(i) => {
                proof {
                    lemma_absent(p@, s@, i as int, price);
                }
                true
            },
        }
    }
}

impl Levels for InlineLevels {
    closed spec fn view(&self) -> Map<i64, u32> {
        ladder(self.storage.prices(), self.storage.sizes())
    }

    closed spec fn wf(&self) -> bool {
        self.storage.wf()
    }

    proof fn lemma_populated(&self) {
        lemma_measure(self.storage.prices(), self.storage.sizes());
    }

    fn empty() -> (r: InlineLevels) {
        InlineLevels::default()
    }

    fn set(&mut self, price: Price, size: u32)
        ensures
            final(self).inline() <==> old(self).inline() && final(self).view().dom().len()
                <= INLINE,
    {
        // Full and this price is new: spill, then write on the heap.
        if self.needs_spill(price, size) {
            self.spill();
        }
        proof {
            lemma_measure(self.storage.prices(), self.storage.sizes());
            if self.view().contains_key(price.0) {
                let p = self.storage.prices();
                let j = crate::book::ladder::place(p, price.0);
                assert(0 <= j < p.len() && p[j].0 == price.0);
                assert(p[j] == price);
            }
        }
        match &mut self.storage {
            Storage::Inline { n, prices, sizes } => {
                set_inline(n, prices, sizes, price, size);
            },
            Storage::Spilled { prices, sizes } => {
                set_in(prices, sizes, price, size);
            },
        }
        proof {
            lemma_measure(self.storage.prices(), self.storage.sizes());
        }
    }

    fn max(&self) -> (r: Option<(Price, u32)>) {
        let (p, s) = self.live();
        proof {
            lemma_ends(p@, s@);
        }
        let n: usize = p.len();
        if n == 0 {
            return None;
        }
        Some((p[n - 1], s[n - 1]))
    }

    fn min(&self) -> (r: Option<(Price, u32)>) {
        let (p, s) = self.live();
        proof {
            lemma_ends(p@, s@);
        }
        if p.len() == 0 {
            return None;
        }
        Some((p[0], s[0]))
    }

    fn len(&self) -> (r: usize) {
        proof {
            lemma_measure(self.storage.prices(), self.storage.sizes());
        }
        self.live().0.len()
    }

    fn total_size(&self) -> (r: u64) {
        proof {
            lemma_measure(self.storage.prices(), self.storage.sizes());
        }
        add_up(self.live().1)
    }

    fn levels(&self) -> (r: Vec<(Price, u32)>) {
        let (p, s) = self.live();
        zip(p, s)
    }

    fn clear(&mut self)
        ensures
            final(self).inline(),
    {
        // Returning to the inline representation releases the spill allocation,
        // which matters at a session reset: without it a book that was briefly
        // deep would hold its heap vectors for the rest of the run.
        *self = InlineLevels::default();
    }
}

}
