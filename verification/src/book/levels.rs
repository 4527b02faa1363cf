//! One side of one symbol's book.
//!
//! DEEP is an aggregated-depth feed, so a side of the book is a map from price
//! to displayed size, not a graph of orders. Every implementation of [`Levels`]
//! is a different answer to how that map is kept.
//!
//! Three operations matter, in this order of frequency:
//!
//! 1. `set`: write a size at a price. Every price level update.
//! 2. `max`/`min`: find the touch. Every update, if a consumer wants a
//!    top-of-book after each one.
//! 3. everything else: depth walks, validation, diagnostics. Rare.
//!
//! `set` with a size of zero is a *deletion*. Dispatch is static: the trait is a
//! generic bound, never a `dyn`.
use vstd::prelude::*;

use crate::book::ladder::total;
use crate::deep::price::Price;
use crate::tree::{greatest, least};

verus! {

/// A side after a size is written at a price.
pub open spec fn set_level(m: Map<i64, u32>, price: Price, size: u32) -> Map<i64, u32> {
    if size == 0 {
        m.remove(price.0)
    } else {
        m.insert(price.0, size)
    }
}

/// The highest price holding size, and what it holds.
pub open spec fn highest(m: Map<i64, u32>) -> Option<(Price, u32)> {
    if m.dom().is_empty() {
        None
    } else {
        Some((Price(greatest(m)), m[greatest(m)]))
    }
}

/// The lowest price holding size, and what it holds.
pub open spec fn lowest(m: Map<i64, u32>) -> Option<(Price, u32)> {
    if m.dom().is_empty() {
        None
    } else {
        Some((Price(least(m)), m[least(m)]))
    }
}

/// A side has finitely many levels and each of them holds size.
pub open spec fn populated(m: Map<i64, u32>) -> bool {
    &&& m.dom().finite()
    &&& forall|k: i64| #[trigger] m.contains_key(k) ==> m[k] > 0
}

/// `s` lists the levels of `m` from the lowest price up.
pub open spec fn lists_levels(s: Seq<(Price, u32)>, m: Map<i64, u32>) -> bool {
    &&& s.len() == m.dom().len()
    &&& forall|i: int, j: int|
        0 <= i < j < s.len() ==> (#[trigger] s[i]).0.0 < (#[trigger] s[j]).0.0
    &&& forall|i: int| 0 <= i < s.len() ==> m.contains_pair((#[trigger] s[i]).0.0, s[i].1)
}

/// A single side of one symbol's book: price to displayed size.
pub trait Levels: Sized {
    /// The side as a map from price in units to size.
    spec fn view(&self) -> Map<i64, u32>;

    /// What the representation keeps.
    spec fn wf(&self) -> bool;

    /// No level is ever empty.
    proof fn lemma_populated(&self)
        requires
            self.wf(),
        ensures
            populated(self.view()),
    ;

    /// A side with no levels.
    fn empty() -> (r: Self)
        ensures
            r.wf(),
            r.view() == Map::<i64, u32>::empty(),
    ;

    /// Set the displayed size at `price`. A `size` of zero removes the level.
    fn set(&mut self, price: Price, size: u32)
        requires
            old(self).wf(),
        ensures
            final(self).wf(),
            final(self).view() == set_level(old(self).view(), price, size),
    ;

    /// Highest price holding size. The best bid.
    fn max(&self) -> (r: Option<(Price, u32)>)
        requires
            self.wf(),
        ensures
            r == highest(self.view()),
    ;

    /// Lowest price holding size. The best ask.
    fn min(&self) -> (r: Option<(Price, u32)>)
        requires
            self.wf(),
        ensures
            r == lowest(self.view()),
    ;

    /// Number of populated levels.
    fn len(&self) -> (r: usize)
        requires
            self.wf(),
        ensures
            r == self.view().dom().len(),
    ;

    fn is_empty(&self) -> (r: bool)
        requires
            self.wf(),
        ensures
            r == (self.view().dom().len() == 0),
    {
        self.len() == 0
    }

    /// Total displayed size across every level. Used by the audit, not the hot
    /// path, and deliberately recomputed rather than cached so it can catch a
    /// cached total that has drifted.
    fn total_size(&self) -> (r: u64)
        requires
            self.wf(),
            total(self.view()) <= u64::MAX,
        ensures
            r == total(self.view()),
    ;

    /// Every populated level, from the lowest price up.
    fn levels(&self) -> (r: Vec<(Price, u32)>)
        requires
            self.wf(),
        ensures
            lists_levels(r@, self.view()),
    ;

    /// Drop every level. Used on a session reset, where sequence numbers restart
    /// and any retained state is from a stream that no longer exists.
    fn clear(&mut self)
        requires
            old(self).wf(),
        ensures
            final(self).wf(),
            final(self).view() == Map::<i64, u32>::empty(),
    ;
}

/// A side after levels are set in turn.
pub open spec fn set_all(m: Map<i64, u32>, ops: Seq<(Price, u32)>) -> Map<i64, u32>
    decreases ops.len(),
{
    if ops.len() == 0 {
        m
    } else {
        set_level(set_all(m, ops.drop_last()), ops.last().0, ops.last().1)
    }
}

/// A side that starts empty and has levels set one after the other, each as
/// [`Levels::set`] promises.
pub open spec fn takes(states: Seq<Map<i64, u32>>, ops: Seq<(Price, u32)>) -> bool {
    &&& states.len() == ops.len() + 1
    &&& states[0] == Map::<i64, u32>::empty()
    &&& forall|i: int|
        0 <= i < ops.len() ==> #[trigger] states[i + 1] == set_level(
            states[i],
            ops[i].0,
            ops[i].1,
        )
}

proof fn lemma_takes(states: Seq<Map<i64, u32>>, ops: Seq<(Price, u32)>, n: int)
    requires
        takes(states, ops),
        0 <= n <= ops.len(),
    ensures
        states[n] == set_all(Map::empty(), ops.take(n)),
    decreases n,
{
    if n > 0 {
        lemma_takes(states, ops, n - 1);
        assert(ops.take(n).drop_last() =~= ops.take(n - 1));
        assert(states[(n - 1) + 1] == set_level(states[n - 1], ops[n - 1].0, ops[n - 1].1));
    } else {
        assert(ops.take(0).len() == 0);
    }
}

/// Whatever levels are set, two containers agree after every one of them, on
/// everything a caller can ask: which of them holds a side makes no difference.
pub proof fn law_containers_agree<A: Levels, B: Levels>(
    xs: Seq<A>,
    ys: Seq<B>,
    ops: Seq<(Price, u32)>,
    n: int,
)
    requires
        takes(xs.map_values(|x: A| x.view()), ops),
        takes(ys.map_values(|y: B| y.view()), ops),
        0 <= n <= ops.len(),
    ensures
        xs[n].view() == ys[n].view(),
        xs[n].view() == set_all(Map::empty(), ops.take(n)),
        highest(xs[n].view()) == highest(ys[n].view()),
        lowest(xs[n].view()) == lowest(ys[n].view()),
        total(xs[n].view()) == total(ys[n].view()),
        xs[n].view().dom().len() == ys[n].view().dom().len(),
{
    lemma_takes(xs.map_values(|x: A| x.view()), ops, n);
    lemma_takes(ys.map_values(|y: B| y.view()), ops, n);
}

/// After a level is written it holds that size; after a delete it is gone; no
/// other level changes. A delete of a level that is not there changes nothing.
pub proof fn law_set_touches_one_level(m: Map<i64, u32>, price: Price, size: u32, other: i64)
    ensures
        size > 0 ==> set_level(m, price, size).contains_pair(price.0, size),
        size == 0 ==> !set_level(m, price, size).contains_key(price.0),
        other != price.0 ==> set_level(m, price, size).contains_key(other) == m.contains_key(
            other,
        ) && set_level(m, price, size)[other] == m[other],
        size == 0 && !m.contains_key(price.0) ==> set_level(m, price, size) == m,
{
    assert(size == 0 && !m.contains_key(price.0) ==> m.remove(price.0) =~= m);
}

}
