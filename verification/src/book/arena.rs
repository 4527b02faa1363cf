//! Level storage in one contiguous arena.
//!
//! Every level lives in one flat allocation with a symbol's two sides adjacent,
//! and the per-symbol record stays tiny. It is slower than the vectors it was
//! meant to replace: contiguity is not locality, and what a cache rewards is the
//! fields used together being in the same line. Kept as evidence.
use std::collections::HashMap;
use vstd::prelude::*;
use vstd::slice::slice_subrange;

use crate::book::ladder::{
    add_up, find, is_ladder, ladder, lemma_absent, lemma_at, lemma_ends, lemma_insert,
    lemma_measure, lemma_remove, lemma_sum_prefix, lemma_update, set_in,
};
use crate::book::levels::{highest, lowest, populated, set_level};
use crate::book::{BookView, Stats, SymbolView};
use crate::deep::messages::{PriceLevelUpdate, Side};
use crate::deep::price::Price;
use crate::deep::symbol::{lemma_key_identifies, Symbol};
use crate::tally::{lemma_tally_listing, sum};

verus! {

/// Levels held per side before spilling. Eight prices are one cache line.
pub const SLOT: usize = 8;

/// Marks a side whose levels are still in the arena rather than spilled.
const NO_SPILL: u32 = u32::MAX;

#[derive(Debug, Clone, Copy)]
struct SideMeta {
    len: u16,
    /// Index into `spills`, or [`NO_SPILL`].
    spill: u32,
}

/// A side too deep for its arena slot.
#[derive(Debug, Clone)]
struct Spill {
    prices: Vec<Price>,
    sizes: Vec<u32>,
}

/// Aggregated-depth book with arena-allocated levels.
pub struct ArenaBook {
    /// Symbol, in its integer form, to symbol index. Sides are `2i` (bids) and
    /// `2i + 1` (asks).
    index: HashMap<u64, u32>,
    meta: Vec<SideMeta>,
    /// Stride `SLOT` per side, so side `s` owns `[s * SLOT, s * SLOT + SLOT)`.
    prices: Vec<Price>,
    sizes: Vec<u32>,
    spills: Vec<Spill>,
    /// Per symbol: the feed is not mid-event.
    complete: Vec<bool>,
    pub stats: Stats,
    /// Symbols by index.
    order: Ghost<Seq<u64>>,
}

impl ArenaBook {
    /// The live prices of a side.
    spec fn side_prices(self, side: int) -> Seq<Price> {
        let m = self.meta@[side];
        if m.spill == NO_SPILL {
            self.prices@.subrange(side * SLOT, side * SLOT + m.len)
        } else {
            self.spills@[m.spill as int].prices@
        }
    }

    /// The live sizes of a side.
    spec fn side_sizes(self, side: int) -> Seq<u32> {
        let m = self.meta@[side];
        if m.spill == NO_SPILL {
            self.sizes@.subrange(side * SLOT, side * SLOT + m.len)
        } else {
            self.spills@[m.spill as int].sizes@
        }
    }

    /// The levels of a side.
    spec fn side(self, side: int) -> Map<i64, u32> {
        ladder(self.side_prices(side), self.side_sizes(side))
    }

    /// A side's bookkeeping is sound.
    spec fn side_wf(self, side: int) -> bool {
        let m = self.meta@[side];
        &&& m.spill == NO_SPILL ==> m.len <= SLOT
        &&& m.spill != NO_SPILL ==> m.spill < self.spills@.len()
        &&& is_ladder(self.side_prices(side), self.side_sizes(side))
        &&& self.side_prices(side).len() == m.len
    }

    /// Symbols are numbered in the order they appeared, each owns two sides, and
    /// no two sides share a spill.
    pub closed spec fn wf(self) -> bool {
        &&& self.order@.len() == self.complete@.len()
        &&& self.order@.no_duplicates()
        &&& self.complete@.len() <= u32::MAX
        &&& self.meta@.len() == 2 * self.complete@.len()
        &&& self.prices@.len() == SLOT * self.meta@.len()
        &&& self.sizes@.len() == SLOT * self.meta@.len()
        &&& SLOT * self.meta@.len() <= usize::MAX
        &&& self.spills@.len() <= u32::MAX
        &&& forall|k: u64| #[trigger]
            self.index@.contains_key(k) ==> self.index@[k] < self.order@.len()
                && self.order@[self.index@[k] as int] == k
        &&& forall|i: int|
            0 <= i < self.order@.len() ==> self.index@.contains_pair(
                #[trigger] self.order@[i],
                i as u32,
            )
        &&& forall|s: int| 0 <= s < self.meta@.len() ==> #[trigger] self.side_wf(s)
        &&& forall|s: int, t: int|
            0 <= s < t < self.meta@.len() && self.meta@[s].spill != NO_SPILL ==> (
            #[trigger] self.meta@[s]).spill != (#[trigger] self.meta@[t]).spill
    }

    /// What is known of the symbol with index `i`.
    spec fn numbered(self, i: int) -> SymbolView {
        SymbolView {
            bids: self.side(2 * i),
            asks: self.side(2 * i + 1),
            complete: self.complete@[i],
        }
    }
}

impl View for ArenaBook {
    type V = BookView;

    closed spec fn view(&self) -> BookView {
        BookView {
            symbols: Map::new(
                |k: u64| self.index@.contains_key(k),
                |k: u64| self.numbered(self.index@[k] as int),
            ),
            stats: self.stats@,
        }
    }
}

impl Default for ArenaBook {
    fn default() -> (r: ArenaBook)
        ensures
            r.wf(),
            r@ == BookView::empty(),
            r.spilled_sides() == 0,
    {
        ArenaBook::with_capacity(1024)
    }
}

/// Move `v[lo..hi]` up by one slot.
fn open_gap<T: Copy>(v: &mut Vec<T>, lo: usize, hi: usize)
    requires
        lo <= hi < old(v)@.len(),
    ensures
        final(v)@.len() == old(v)@.len(),
        forall|j: int|
            0 <= j < old(v)@.len() ==> #[trigger] final(v)@[j] == (if lo < j <= hi {
                old(v)@[j - 1]
            } else {
                old(v)@[j]
            }),
{
    let mut k: usize = hi;
    while k > lo
        invariant
            lo <= k <= hi < v@.len(),
            v@.len() == old(v)@.len(),
            forall|j: int|
                0 <= j < v@.len() ==> #[trigger] v@[j] == (if k < j <= hi {
                    old(v)@[j - 1]
                } else {
                    old(v)@[j]
                }),
        decreases k,
    {
        let x = v[k - 1];
        v[k] = x;
        k = k - 1;
    }
}

/// Move `v[lo + 1..hi]` down by one slot.
fn close_gap<T: Copy>(v: &mut Vec<T>, lo: usize, hi: usize)
    requires
        lo < hi <= old(v)@.len(),
    ensures
        final(v)@.len() == old(v)@.len(),
        forall|j: int|
            0 <= j < old(v)@.len() ==> #[trigger] final(v)@[j] == (if lo <= j < hi - 1 {
                old(v)@[j + 1]
            } else {
                old(v)@[j]
            }),
{
    let mut k: usize = lo;
    while k + 1 < hi
        invariant
            lo <= k < hi <= v@.len(),
            v@.len() == old(v)@.len(),
            forall|j: int|
                0 <= j < v@.len() ==> #[trigger] v@[j] == (if lo <= j < k {
                    old(v)@[j + 1]
                } else {
                    old(v)@[j]
                }),
        decreases hi - k,
    {
        let x = v[k + 1];
        v[k] = x;
        k = k + 1;
    }
}

impl ArenaBook {
    pub fn with_capacity(symbols: usize) -> (r: ArenaBook)
        requires
            symbols * 2 * SLOT <= usize::MAX,
        ensures
            r.wf(),
            r@ == BookView::empty(),
            r.spilled_sides() == 0,
    {
        broadcast use vstd::std_specs::hash::group_hash_axioms;

        let r = ArenaBook {
            index: HashMap::with_capacity(symbols),
            meta: Vec::with_capacity(symbols * 2),
            prices: Vec::with_capacity(symbols * 2 * SLOT),
            sizes: Vec::with_capacity(symbols * 2 * SLOT),
            spills: Vec::new(),
            complete: Vec::with_capacity(symbols),
            stats: Stats::default(),
            order: Ghost(Seq::empty()),
        };
        assert(r@.symbols =~= Map::<u64, SymbolView>::empty());
        r
    }

    pub fn len(&self) -> (r: usize)
        ensures
            r == self@.symbols.dom().len(),
    {
        broadcast use vstd::std_specs::hash::group_hash_axioms;

        assert(self@.symbols.dom() =~= self.index@.dom());
        self.index.len()
    }

    pub fn is_empty(&self) -> (r: bool)
        ensures
            r == (self@.symbols.dom().len() == 0),
    {
        self.len() == 0
    }

    /// The counters.
    pub fn counters(&self) -> (r: Stats)
        ensures
            r@ == self@.stats,
    {
        self.stats
    }

    /// How many sides have outgrown the arena so far.
    pub closed spec fn spilled_sides(self) -> nat {
        self.spills@.len()
    }

    /// How many sides have outgrown the arena so far.
    pub fn spilled(&self) -> (r: usize)
        ensures
            r == self.spilled_sides(),
    {
        self.spills.len()
    }

    /// Symbol index, creating the symbol's two side slots on first sight.
    fn symbol_index(&mut self, symbol: Symbol) -> (r: u32)
        requires
            old(self).wf(),
            old(self).index@.contains_key(symbol.key()) || (old(self).complete@.len() < u32::MAX && (
            old(self).meta@.len() + 2) * SLOT <= usize::MAX),
        ensures
            final(self).wf(),
            final(self).index@.contains_pair(symbol.key(), r),
            final(self).stats == old(self).stats,
            final(self).spills == old(self).spills,
            final(self)@.symbols == old(self)@.symbols.insert(
                symbol.key(),
                old(self)@.symbol(symbol.key()),
            ),
    {
        broadcast use vstd::std_specs::hash::group_hash_axioms;

        let key: u64 = symbol.as_u64();
        if let Some(i) = self.index.get(&key) {
            let i: u32 = *i;
            assert(self@.symbols =~= old(self)@.symbols.insert(
                symbol.key(),
                old(self)@.symbol(symbol.key()),
            ));
            return i;
        }
        let next: u32 = self.complete.len() as u32;
        self.index.insert(key, next);
        self.meta.push(SideMeta { len: 0, spill: NO_SPILL });
        self.meta.push(SideMeta { len: 0, spill: NO_SPILL });
        let room: usize = self.prices.len() + 2 * SLOT;
        self.prices.resize(room, Price(0));
        self.sizes.resize(room, 0);
        self.complete.push(false);
        self.order = Ghost(self.order@.push(key));
        proof {
            let n = old(self).meta@.len() as int;
            assert(!old(self).order@.contains(key)) by {
                if old(self).order@.contains(key) {
                    let i = choose|i: int|
                        0 <= i < old(self).order@.len() && old(self).order@[i] == key;
                    assert(old(self).index@.contains_pair(old(self).order@[i], i as u32));
                }
            }
            assert(old(self).prices@ =~= self.prices@.take(old(self).prices@.len() as int));
            assert(old(self).sizes@ =~= self.sizes@.take(old(self).sizes@.len() as int));
            assert forall|s: int| 0 <= s < n implies self.side_prices(s) == old(self).side_prices(s)
                && self.side_sizes(s) == old(self).side_sizes(s) && #[trigger] self.side_wf(s) by {
                assert(old(self).side_wf(s));
                assert(self.meta@[s] == old(self).meta@[s]);
                assert(self.side_prices(s) =~= old(self).side_prices(s));
                assert(self.side_sizes(s) =~= old(self).side_sizes(s));
            }
            assert forall|s: int| n <= s < n + 2 implies self.side(s) == Map::<i64, u32>::empty()
                && #[trigger] self.side_wf(s) by {
                assert(self.side_prices(s) =~= Seq::empty());
                assert(self.side_sizes(s) =~= Seq::empty());
                assert(self.side(s) =~= Map::<i64, u32>::empty());
            }
            assert forall|i: int| 0 <= i < self.order@.len() implies self.index@.contains_pair(
                #[trigger] self.order@[i],
                i as u32,
            ) by {
                if i < old(self).order@.len() {
                    assert(old(self).index@.contains_pair(old(self).order@[i], i as u32));
                    assert(self.order@[i] == old(self).order@[i]);
                }
            }
            assert forall|k: u64| #[trigger] self.index@.contains_key(k) implies self.index@[k]
                < self.order@.len() && self.order@[self.index@[k] as int] == k by {
                if k != key {
                    assert(old(self).index@.contains_key(k));
                }
            }
            assert(self.wf());
            assert(self.numbered(next as int) =~= SymbolView::empty()) by {
                assert(self.side_wf(n) && self.side_wf(n + 1));
            }
            assert forall|k: u64| old(self).index@.contains_key(k) implies self.numbered(
                self.index@[k] as int,
            ) == old(self).numbered(old(self).index@[k] as int) by {
                let i = old(self).index@[k] as int;
                assert(self.side_wf(2 * i) && self.side_wf(2 * i + 1));
            }
            assert(self@.symbols =~= old(self)@.symbols.insert(key, SymbolView::empty()));
        }
        next
    }

    /// The levels of a side, wherever they are held.
    fn slot(&self, side: usize) -> (r: (&[Price], &[u32]))
        requires
            self.wf(),
            side < self.meta@.len(),
        ensures
            r.0@ == self.side_prices(side as int),
            r.1@ == self.side_sizes(side as int),
    {
        let m: SideMeta = self.meta[side];
        assert(self.side_wf(side as int));
        if m.spill == NO_SPILL {
            let base: usize = side * SLOT;
            let n: usize = m.len as usize;
            (
                slice_subrange(self.prices.as_slice(), base, base + n),
                slice_subrange(self.sizes.as_slice(), base, base + n),
            )
        } else {
            let s = &self.spills[m.spill as usize];
            (s.prices.as_slice(), s.sizes.as_slice())
        }
    }

    fn best(&self, side: usize, want_max: bool) -> (r: Option<(Price, u32)>)
        requires
            self.wf(),
            side < self.meta@.len(),
        ensures
            r == (if want_max {
                highest(self.side(side as int))
            } else {
                lowest(self.side(side as int))
            }),
    {
        let (p, s) = self.slot(side);
        proof {
            assert(self.side_wf(side as int));
            lemma_ends(p@, s@);
        }
        if p.len() == 0 {
            return None;
        }
        let i: usize = if want_max {
            p.len() - 1
        } else {
            0
        };
        Some((p[i], s[i]))
    }

    /// Highest bid for a symbol.
    pub fn best_bid(&self, symbol: Symbol) -> (r: Option<(Price, u32)>)
        requires
            self.wf(),
        ensures
            r == self@.symbol(symbol.key()).touch().bid,
    {
        broadcast use vstd::std_specs::hash::group_hash_axioms;

        match self.index.get(&symbol.as_u64()) {
            Some(i) => self.best(*i as usize * 2, true),
            None => None,
        }
    }

    /// Lowest ask for a symbol.
    pub fn best_ask(&self, symbol: Symbol) -> (r: Option<(Price, u32)>)
        requires
            self.wf(),
        ensures
            r == self@.symbol(symbol.key()).touch().ask,
    {
        broadcast use vstd::std_specs::hash::group_hash_axioms;

        match self.index.get(&symbol.as_u64()) {
            Some(i) => self.best(*i as usize * 2 + 1, false),
            None => None,
        }
    }

    /// Everything but one side's levels is as it was.
    spec fn only_side_changed(self, before: ArenaBook, side: int) -> bool {
        &&& self.index == before.index
        &&& self.complete == before.complete
        &&& self.stats == before.stats
        &&& self.order == before.order
        &&& self.meta@.len() == before.meta@.len()
        &&& forall|s: int|
            0 <= s < self.meta@.len() && s != side ==> #[trigger] self.side(s) == before.side(s)
    }

    /// Move a full arena slot to the spill table.
    fn spill_side(&mut self, side: usize)
        requires
            old(self).wf(),
            side < old(self).meta@.len(),
            old(self).meta@[side as int].spill == NO_SPILL,
            old(self).spills@.len() < u32::MAX,
        ensures
            final(self).wf(),
            final(self).only_side_changed(*old(self), side as int),
            final(self).side(side as int) == old(self).side(side as int),
            final(self).meta@[side as int].spill != NO_SPILL,
            final(self).meta@[side as int].len == old(self).meta@[side as int].len,
            final(self).spills@.len() == old(self).spills@.len() + 1,
    {
        let (p, s) = self.slot(side);
        let spill = Spill {
            prices: vstd::slice::slice_to_vec(p),
            sizes: vstd::slice::slice_to_vec(s),
        };
        let at: u32 = self.spills.len() as u32;
        self.spills.push(spill);
        let len: u16 = self.meta[side].len;
        self.meta[side] = SideMeta { len, spill: at };
        proof {
            assert(old(self).side_wf(side as int));
            assert forall|t: int| 0 <= t < self.meta@.len() implies #[trigger] self.side(t) == old(
                self,
            ).side(t) && self.side_wf(t) by {
                assert(old(self).side_wf(t));
                if t != side {
                    assert(self.meta@[t] == old(self).meta@[t]);
                }
            }
            assert forall|t: int| 0 <= t < self.meta@.len() implies #[trigger] self.side_wf(t) by {
                assert(self.side(t) == old(self).side(t));
            }
            assert forall|t: int, u: int|
                0 <= t < u < self.meta@.len() && self.meta@[t].spill != NO_SPILL implies (
            #[trigger] self.meta@[t]).spill != (#[trigger] self.meta@[u]).spill by {
                assert(old(self).side_wf(t) && old(self).side_wf(u));
                if t != side && u != side {
                    assert(old(self).meta@[t].spill != old(self).meta@[u].spill);
                }
            }
        }
    }

    /// Set a level of a side that is still in the arena and has room for it.
    fn set_in_slot(&mut self, side: usize, price: Price, size: u32) -> (r: bool)
        requires
            old(self).wf(),
            side < old(self).meta@.len(),
            old(self).meta@[side as int].spill == NO_SPILL,
            old(self).meta@[side as int].len < SLOT || size == 0 || old(self).side(
                side as int,
            ).contains_key(price.0),
        ensures
            final(self).wf(),
            final(self).only_side_changed(*old(self), side as int),
            final(self).spills == old(self).spills,
            final(self).side(side as int) == set_level(old(self).side(side as int), price, size),
            r == (old(self).side(side as int).contains_key(price.0) != (size != 0)),
    {
        let ghost p = self.side_prices(side as int);
        let ghost s = self.side_sizes(side as int);
        let base: usize = side * SLOT;
        let n: usize = self.meta[side].len as usize;
        assert(self.side_wf(side as int));
        let found = find(self.slot(side).0, price);
        let changed: bool;
        match found {
            Ok(i) => {
                proof {
                    lemma_at(p, s, i as int);
                }
                if size == 0 {
                    close_gap(&mut self.prices, base + i, base + n);
                    close_gap(&mut self.sizes, base + i, base + n);
                    let len: u16 = self.meta[side].len;
                    self.meta[side] = SideMeta { len: len - 1, spill: NO_SPILL };
                    changed = true;
                    proof {
                        lemma_remove(p, s, i as int);
                        assert(self.side_prices(side as int) =~= p.remove(i as int));
                        assert(self.side_sizes(side as int) =~= s.remove(i as int));
                    }
                } else {
                    self.sizes[base + i] = size;
                    changed = false;
                    proof {
                        lemma_update(p, s, i as int, size);
                        assert(self.side_prices(side as int) =~= p);
                        assert(self.side_sizes(side as int) =~= s.update(i as int, size));
                    }
                }
            },
            Err(i) => {
                proof {
                    lemma_absent(p, s, i as int, price);
                }
                if size == 0 {
                    return false;
                }
                open_gap(&mut self.prices, base + i, base + n);
                open_gap(&mut self.sizes, base + i, base + n);
                self.prices[base + i] = price;
                self.sizes[base + i] = size;
                let len: u16 = self.meta[side].len;
                self.meta[side] = SideMeta { len: len + 1, spill: NO_SPILL };
                changed = true;
                proof {
                    lemma_insert(p, s, i as int, price, size);
                    assert(self.side_prices(side as int) =~= p.insert(i as int, price));
                    assert(self.side_sizes(side as int) =~= s.insert(i as int, size));
                }
            },
        }
        proof {
            lemma_other_slots(*old(self), *self, side as int);
            assert(self.side_wf(side as int));
            assert forall|t: int| 0 <= t < self.meta@.len() implies #[trigger] self.side_wf(t) by {
                if t != side {
                    assert(self.side(t) == old(self).side(t));
                }
            }
        }
        changed
    }

    /// Set a level of a side that has spilled.
    fn set_in_spill(&mut self, side: usize, price: Price, size: u32) -> (r: bool)
        requires
            old(self).wf(),
            side < old(self).meta@.len(),
            old(self).meta@[side as int].spill != NO_SPILL,
            old(self).meta@[side as int].len < u16::MAX || size == 0 || old(self).side(
                side as int,
            ).contains_key(price.0),
        ensures
            final(self).wf(),
            final(self).only_side_changed(*old(self), side as int),
            final(self).spills@.len() == old(self).spills@.len(),
            final(self).side(side as int) == set_level(old(self).side(side as int), price, size),
            r == (old(self).side(side as int).contains_key(price.0) != (size != 0)),
    {
        let m: SideMeta = self.meta[side];
        let ghost p = self.side_prices(side as int);
        let ghost s = self.side_sizes(side as int);
        proof {
            assert(self.side_wf(side as int));
            lemma_measure(p, s);
        }
        let spill = &mut self.spills[m.spill as usize];
        set_in(&mut spill.prices, &mut spill.sizes, price, size);
        let now: usize = spill.prices.len();
        proof {
            lemma_measure(spill.prices@, spill.sizes@);
        }
        self.meta[side] = SideMeta { len: now as u16, spill: m.spill };
        proof {
            assert forall|t: int| 0 <= t < self.meta@.len() && t != side implies self.side_wf(t)
                && #[trigger] self.side(t) == old(self).side(t) by {
                assert(old(self).side_wf(t));
                assert(self.meta@[t] == old(self).meta@[t]);
                if t < side {
                    assert(old(self).meta@[t].spill != NO_SPILL ==> old(self).meta@[t].spill
                        != old(self).meta@[side as int].spill);
                } else {
                    assert(old(self).meta@[side as int].spill != old(self).meta@[t].spill);
                }
            }
            assert(self.side_wf(side as int));
            assert forall|t: int| 0 <= t < self.meta@.len() implies #[trigger] self.side_wf(t) by {
                if t != side {
                    assert(self.side(t) == old(self).side(t));
                }
            }
        }
        now != m.len as usize
    }

    /// Set a level on one side. Returns true if the level count changed.
    fn set(&mut self, side: usize, price: Price, size: u32) -> (r: bool)
        requires
            old(self).wf(),
            side < old(self).meta@.len(),
            old(self).spills@.len() < u32::MAX || size == 0 || old(self).side(
                side as int,
            ).dom().len() != SLOT || old(self).side(side as int).contains_key(price.0),
            old(self).side(side as int).dom().len() < u16::MAX || size == 0 || old(self).side(
                side as int,
            ).contains_key(price.0),
        ensures
            final(self).wf(),
            final(self).only_side_changed(*old(self), side as int),
            final(self).spills@.len() <= old(self).spills@.len() + 1,
            final(self).spills@.len() > old(self).spills@.len() ==> size != 0 && old(self).side(
                side as int,
            ).dom().len() == SLOT && !old(self).side(side as int).contains_key(price.0),
            final(self).side(side as int) == set_level(old(self).side(side as int), price, size),
            r == (old(self).side(side as int).contains_key(price.0) != (size != 0)),
    {
        let m: SideMeta = self.meta[side];
        proof {
            assert(self.side_wf(side as int));
            lemma_measure(self.side_prices(side as int), self.side_sizes(side as int));
        }
        if m.spill == NO_SPILL {
            let full: bool = m.len as usize == SLOT && size != 0;
            if !full {
                return self.set_in_slot(side, price, size);
            }
            match find(self.slot(side).0, price) {
                Ok(i) => {
                    proof {
                        lemma_at(
                            self.side_prices(side as int),
                            self.side_sizes(side as int),
                            i as int,
                        );
                    }
                    return self.set_in_slot(side, price, size);
                },
                Err(i) => {
                    proof {
                        lemma_absent(
                            self.side_prices(side as int),
                            self.side_sizes(side as int),
                            i as int,
                            price,
                        );
                    }
                },
            }
            self.spill_side(side);
        }
        self.set_in_spill(side, price, size)
    }

    /// An update fits: the counters have room, and so have the indices where it
    /// brings a new symbol, a side that spills or a level that was not held.
    pub open spec fn accepts(self, u: PriceLevelUpdate) -> bool {
        let side = self@.symbol(u.symbol.key()).side(u.side);
        let adds = !u.is_delete() && !side.contains_key(u.price.0);
        &&& self@.stats.room()
        &&& self@.symbols.contains_key(u.symbol.key()) || (self@.symbols.dom().len() < u32::MAX
            && (self@.symbols.dom().len() + 1) * 2 * SLOT <= usize::MAX)
        &&& adds && side.dom().len() == SLOT ==> self.spilled_sides() < u32::MAX
        &&& adds ==> side.dom().len() < u16::MAX
    }

    /// The hot path.
    pub fn apply_price_level(&mut self, u: &PriceLevelUpdate)
        requires
            old(self).wf(),
            old(self).accepts(*u),
        ensures
            final(self).wf(),
            final(self)@ == old(self)@.updated(*u),
            final(self).spilled_sides() <= old(self).spilled_sides() + 1,
            final(self).spilled_sides() > old(self).spilled_sides() ==> {
                let side = old(self)@.symbol(u.symbol.key()).side(u.side);
                !u.is_delete() && side.dom().len() == SLOT && !side.contains_key(u.price.0)
            },
    {
        let ghost before = self@.symbol(u.symbol.key());
        proof {
            self.lemma_order_lists();
            self.order@.unique_seq_to_set();
        }
        let sym: usize = self.symbol_index(u.symbol) as usize;
        let ghost listed = *self;
        let side: usize = match u.side {
            Side::Buy => sym * 2,
            Side::Sell => sym * 2 + 1,
        };
        proof {
            assert(listed@.symbols[u.symbol.key()] == before);
            assert(listed.side(side as int) == before.side(u.side));
        }
        self.stats.updates = self.stats.updates + 1;
        let ghost bumped = *self;
        proof {
            lemma_same_sides(listed, bumped);
        }
        let changed: bool = self.set(side, u.price, u.size);
        let ghost written = *self;
        if u.size == 0 {
            self.stats.deletes = self.stats.deletes + 1;
            if !changed {
                self.stats.deletes_of_absent = self.stats.deletes_of_absent + 1;
            }
        }
        self.complete[sym] = u.event_complete();
        let ghost flagged = *self;
        proof {
            lemma_same_sides(written, flagged);
        }
        // Read each touch once, as the other book does.
        let bid = self.best(sym * 2, true);
        let ask = self.best(sym * 2 + 1, false);
        if let (Some((b, _)), Some((a, _))) = (bid, ask) {
            if b.0 > a.0 {
                if self.complete[sym] {
                    self.stats.crossed_when_stable = self.stats.crossed_when_stable + 1;
                } else {
                    self.stats.crossed_mid_event = self.stats.crossed_mid_event + 1;
                }
            } else if b.0 == a.0 && self.complete[sym] {
                self.stats.locked_when_stable = self.stats.locked_when_stable + 1;
            }
        }
        proof {
            lemma_same_sides(flagged, *self);
            let key = u.symbol.key();
            let after = before.updated(*u);
            assert forall|s: int| 0 <= s < self.meta@.len() && s != side implies #[trigger] self.side(
                s,
            ) == listed.side(s) by {
                assert(bumped.side(s) == listed.side(s));
                assert(written.side(s) == bumped.side(s));
                assert(flagged.side(s) == written.side(s));
            }
            assert(self.side(side as int) == set_level(before.side(u.side), u.price, u.size)) by {
                assert(bumped.side(side as int) == listed.side(side as int));
                assert(flagged.side(side as int) == written.side(side as int));
            }
            assert(self.side(2 * sym as int) == after.bids);
            assert(self.side(2 * sym as int + 1) == after.asks);
            assert(self.numbered(sym as int) =~= after);
            assert forall|k: u64| #[trigger] self.index@.contains_key(k) && k != key implies
                self.numbered(self.index@[k] as int) == listed.numbered(self.index@[k] as int) by {
                let i = self.index@[k] as int;
                assert(listed.index@.contains_key(k));
                assert(i != sym) by {
                    if i == sym {
                        assert(listed.order@[i] == k && listed.order@[sym as int] == key);
                    }
                }
                assert(self.side(2 * i) == listed.side(2 * i));
                assert(self.side(2 * i + 1) == listed.side(2 * i + 1));
            }
            let want = old(self)@.symbols.insert(key, after);
            assert(self.index@ == listed.index@);
            assert forall|k: u64| self@.symbols.contains_key(k) <==> want.contains_key(k) by {
                assert(listed@.symbols.contains_key(k) <==> listed.index@.contains_key(k));
            }
            assert forall|k: u64| #[trigger] self@.symbols.contains_key(k) implies self@.symbols[k]
                == want[k] by {
                assert(self.index@.contains_key(k));
                if k != key {
                    assert(self@.symbols[k] == listed.numbered(listed.index@[k] as int));
                    assert(listed@.symbols[k] == listed.numbered(listed.index@[k] as int));
                }
            }
            assert(self@.symbols =~= want);
        }
    }

    /// Populated levels across every symbol and side.
    pub fn total_levels(&self) -> (r: usize)
        requires
            self.wf(),
            self@.levels() <= usize::MAX,
        ensures
            r == self@.levels(),
    {
        let ghost each = self@.symbols.map_values(|s: SymbolView| s.levels());
        let ghost vals = self.order@.map_values(|k: u64| each[k]);
        proof {
            self.lemma_order_lists();
            lemma_tally_listing(each, self.order@);
        }
        let mut acc: usize = 0;
        let mut i: usize = 0;
        while i < self.complete.len()
            invariant
                i <= self.complete@.len(),
                self.wf(),
                each == self@.symbols.map_values(|s: SymbolView| s.levels()),
                vals == self.order@.map_values(|k: u64| each[k]),
                sum(vals) <= usize::MAX,
                acc == sum(vals.take(i as int)),
            decreases self.complete@.len() - i,
        {
            proof {
                self.lemma_numbered(i as int);
                assert(self.side_wf(2 * i as int) && self.side_wf(2 * i as int + 1));
                lemma_measure(self.side_prices(2 * i as int), self.side_sizes(2 * i as int));
                lemma_measure(
                    self.side_prices(2 * i as int + 1),
                    self.side_sizes(2 * i as int + 1),
                );
                assert(vals.take(i + 1).drop_last() =~= vals.take(i as int));
                lemma_sum_prefix(vals, i + 1);
            }
            acc = acc + (self.meta[2 * i].len as usize + self.meta[2 * i + 1].len as usize);
            i = i + 1;
        }
        assert(vals.take(i as int) =~= vals);
        acc
    }

    /// Total displayed size across every symbol and side.
    pub fn total_size(&self) -> (r: u64)
        requires
            self.wf(),
            self@.shares() <= u64::MAX,
        ensures
            r == self@.shares(),
    {
        let ghost each = self@.symbols.map_values(|s: SymbolView| s.shares());
        let ghost vals = self.order@.map_values(|k: u64| each[k]);
        proof {
            self.lemma_order_lists();
            lemma_tally_listing(each, self.order@);
        }
        let mut acc: u64 = 0;
        let mut i: usize = 0;
        while i < self.complete.len()
            invariant
                i <= self.complete@.len(),
                self.wf(),
                each == self@.symbols.map_values(|s: SymbolView| s.shares()),
                vals == self.order@.map_values(|k: u64| each[k]),
                sum(vals) <= u64::MAX,
                acc == sum(vals.take(i as int)),
            decreases self.complete@.len() - i,
        {
            proof {
                self.lemma_numbered(i as int);
                assert(self.side_wf(2 * i as int) && self.side_wf(2 * i as int + 1));
                lemma_measure(self.side_prices(2 * i as int), self.side_sizes(2 * i as int));
                lemma_measure(
                    self.side_prices(2 * i as int + 1),
                    self.side_sizes(2 * i as int + 1),
                );
                assert(vals.take(i + 1).drop_last() =~= vals.take(i as int));
                lemma_sum_prefix(vals, i + 1);
            }
            acc = acc + (add_up(self.slot(2 * i).1) + add_up(self.slot(2 * i + 1).1));
            i = i + 1;
        }
        assert(vals.take(i as int) =~= vals);
        acc
    }

    /// A book holds finitely many levels, none of them empty.
    pub proof fn lemma_finite(&self)
        requires
            self.wf(),
        ensures
            self@.finite(),
    {
        self.lemma_order_lists();
        self.order@.lemma_cardinality_of_set();
        assert forall|k: u64| #[trigger] self@.symbols.contains_key(k) implies populated(
            self@.symbols[k].bids,
        ) && populated(self@.symbols[k].asks) by {
            let i = self.index@[k] as int;
            assert(self.side_wf(2 * i) && self.side_wf(2 * i + 1));
            lemma_measure(self.side_prices(2 * i), self.side_sizes(2 * i));
            lemma_measure(self.side_prices(2 * i + 1), self.side_sizes(2 * i + 1));
        }
    }

    /// The symbols by index are the symbols of the book, once each.
    proof fn lemma_order_lists(self)
        requires
            self.wf(),
        ensures
            self.order@.no_duplicates(),
            self.order@.to_set() == self@.symbols.map_values(|s: SymbolView| s.levels()).dom(),
            self.order@.to_set() == self@.symbols.map_values(|s: SymbolView| s.shares()).dom(),
            self.order@.to_set() == self@.symbols.dom(),
    {
        let keys = self.order@;
        assert forall|k: u64| keys.to_set().contains(k) implies self@.symbols.dom().contains(k) by {
            let i = choose|i: int| 0 <= i < keys.len() && keys[i] == k;
            assert(self.index@.contains_pair(keys[i], i as u32));
        }
        assert forall|k: u64| self@.symbols.dom().contains(k) implies keys.to_set().contains(k) by {
            assert(self.index@.contains_key(k));
            assert(keys[self.index@[k] as int] == k);
        }
        assert(keys.to_set() =~= self@.symbols.dom());
        assert(self@.symbols.map_values(|s: SymbolView| s.levels()).dom() =~= self@.symbols.dom());
        assert(self@.symbols.map_values(|s: SymbolView| s.shares()).dom() =~= self@.symbols.dom());
    }

    /// The view of the symbol with index `i`.
    proof fn lemma_numbered(self, i: int)
        requires
            self.wf(),
            0 <= i < self.complete@.len(),
        ensures
            self@.symbols.contains_pair(self.order@[i], self.numbered(i)),
    {
        assert(self.index@.contains_pair(self.order@[i], i as u32));
    }
}

/// Writing inside one side's slot leaves the other sides alone.
proof fn lemma_other_slots(a: ArenaBook, b: ArenaBook, side: int)
    requires
        a.wf(),
        0 <= side < a.meta@.len(),
        b.meta@.len() == a.meta@.len(),
        b.prices@.len() == a.prices@.len(),
        b.sizes@.len() == a.sizes@.len(),
        b.spills == a.spills,
        forall|t: int| 0 <= t < a.meta@.len() && t != side ==> #[trigger] b.meta@[t] == a.meta@[t],
        forall|j: int|
            0 <= j < a.prices@.len() && !(side * SLOT <= j < side * SLOT + SLOT)
                ==> #[trigger] b.prices@[j] == a.prices@[j],
        forall|j: int|
            0 <= j < a.sizes@.len() && !(side * SLOT <= j < side * SLOT + SLOT)
                ==> #[trigger] b.sizes@[j] == a.sizes@[j],
    ensures
        forall|t: int|
            0 <= t < a.meta@.len() && t != side ==> #[trigger] b.side(t) == a.side(t) && b.side_wf(
                t,
            ),
{
    assert forall|t: int| 0 <= t < a.meta@.len() && t != side implies #[trigger] b.side(t)
        == a.side(t) && b.side_wf(t) by {
        assert(a.side_wf(t));
        assert(b.meta@[t] == a.meta@[t]);
        assert(b.side_prices(t) =~= a.side_prices(t));
        assert(b.side_sizes(t) =~= a.side_sizes(t));
    }
}

/// Sides depend on nothing but the level storage.
proof fn lemma_same_sides(a: ArenaBook, b: ArenaBook)
    requires
        a.meta == b.meta,
        a.prices == b.prices,
        a.sizes == b.sizes,
        a.spills == b.spills,
    ensures
        forall|s: int| #[trigger] b.side(s) == a.side(s),
        forall|s: int| a.side_wf(s) ==> #[trigger] b.side_wf(s),
{
    assert forall|s: int| #[trigger] b.side(s) == a.side(s) by {
        assert(b.side_prices(s) == a.side_prices(s));
        assert(b.side_sizes(s) == a.side_sizes(s));
    }
    assert forall|s: int| a.side_wf(s) implies #[trigger] b.side_wf(s) by {
        assert(b.side_prices(s) == a.side_prices(s));
        assert(b.side_sizes(s) == a.side_sizes(s));
    }
}


/// Every side deeper than eight levels has outgrown the arena, and each counts.
pub proof fn law_deep_sides_have_spilled(book: ArenaBook, sides: Seq<(Symbol, Side)>)
    requires
        book.wf(),
        sides.no_duplicates(),
        forall|i: int|
            0 <= i < sides.len() ==> book@.symbol((#[trigger] sides[i]).0.key()).side(
                sides[i].1,
            ).dom().len() > 8,
    ensures
        sides.len() <= book.spilled_sides(),
{
    let place = |x: (Symbol, Side)|
        2 * book.index@[x.0.key()] + if x.1 is Buy {
            0int
        } else {
            1int
        };
    let spills = Seq::new(sides.len(), |i: int| book.meta@[place(sides[i])].spill as int);
    assert forall|i: int| 0 <= i < sides.len() implies book.index@.contains_key(
        (#[trigger] sides[i]).0.key(),
    ) && 0 <= place(sides[i]) < book.meta@.len() && book.meta@[place(sides[i])].spill != NO_SPILL
        && 0 <= spills[i] < book.spills@.len() by {
        let (name, side) = sides[i];
        let key = name.key();
        if !book@.symbols.contains_key(key) {
            assert(SymbolView::empty().bids.dom() =~= Set::empty());
            assert(SymbolView::empty().asks.dom() =~= Set::empty());
        }
        let n = place(sides[i]);
        assert(book.side_wf(n));
        lemma_measure(book.side_prices(n), book.side_sizes(n));
        assert(book@.symbol(key).side(side) == book.side(n));
    }
    assert forall|i: int, j: int| 0 <= i < j < sides.len() implies spills[i] != spills[j] by {
        let (a, x) = sides[i];
        let (b, y) = sides[j];
        assert(sides[i] != sides[j]);
        if a.key() == b.key() {
            lemma_key_identifies(a, b);
            assert(x != y);
        } else {
            assert(book.order@[book.index@[a.key()] as int] == a.key());
            assert(book.order@[book.index@[b.key()] as int] == b.key());
        }
        let s = place(sides[i]);
        let t = place(sides[j]);
        assert(s != t);
        if s < t {
            assert(book.meta@[s].spill != book.meta@[t].spill);
        } else {
            assert(book.meta@[t].spill != book.meta@[s].spill);
        }
    }
    assert(spills.no_duplicates());
    spills.unique_seq_to_set();
    let all = vstd::set_lib::set_int_range(0, book.spills@.len() as int);
    vstd::set_lib::lemma_int_range(0, book.spills@.len() as int);
    assert(spills.to_set().subset_of(all)) by {
        assert forall|x: int| spills.to_set().contains(x) implies all.contains(x) by {
            let i = choose|i: int| 0 <= i < spills.len() && spills[i] == x;
            assert(book.index@.contains_key(sides[i].0.key()));
        }
    }
    vstd::set_lib::lemma_len_subset(spills.to_set(), all);
}


/// A book's counters are those it shows.
proof fn law_an_arena_shows_its_counters(b: ArenaBook)
    ensures
        b@.stats == b.stats@,
{
}

}
