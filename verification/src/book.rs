//! Aggregated-depth order book, with the price-level container left generic.
//!
//! DEEP publishes total displayed size per price level rather than individual
//! orders, so a side of a book is a price-to-size map and there is no order-id
//! graph to maintain. That makes the container the whole engineering question,
//! which is why [`Levels`] is a trait.
//!
//! ## Why the crossed check is gated on `event_complete`
//!
//! IEX may split one logical book event across several messages: lifting an
//! offer and posting a new one, say. Between those messages the published book
//! is legitimately crossed, and bit 0 of the price level update's event flags is
//! how the feed says "I am mid-event, do not look yet".
//!
//! So a validator that asserts *never crossed* on every message fires constantly
//! on a healthy feed. Gating on the flag keeps the invariant strict exactly where
//! it is meaningful.
use std::collections::HashMap;
use vstd::prelude::*;
use vstd::std_specs::iter::IteratorSpec;

use crate::bytes::le64;
use crate::deep::messages::{Message, MessageView, PriceLevelUpdate, Side, Trade};
use crate::deep::price::Price;
use crate::deep::symbol::Symbol;
use crate::tally::{lemma_tally_listing, sum, tally};

pub mod arena;
pub mod btree;
pub mod inline;
pub mod ladder;
pub mod laws;
pub mod levels;
pub mod sorted;


pub use arena::ArenaBook;
pub use btree::BTreeLevels;

pub use inline::InlineLevels;
pub use levels::Levels;
pub use sorted::SortedLevels;

use ladder::{lemma_sum_prefix, total};
use levels::{highest, lowest, populated, set_level};

verus! {

/// The best price on each side of one symbol, and whether the feed is between
/// book events.
#[derive(Debug, Clone, Copy, PartialEq, Eq)]
pub struct Touch {
    pub bid: Option<(Price, u32)>,
    pub ask: Option<(Price, u32)>,
    pub stable: bool,
}

/// One symbol's two sides.
#[verifier::ext_equal]
pub struct SymbolView {
    pub bids: Map<i64, u32>,
    pub asks: Map<i64, u32>,
    /// False while the feed is partway through an atomic book event.
    pub complete: bool,
}

impl SymbolView {
    /// A symbol nothing has been said about.
    pub open spec fn empty() -> SymbolView {
        SymbolView { bids: Map::empty(), asks: Map::empty(), complete: false }
    }

    pub open spec fn touch(self) -> Touch {
        Touch { bid: highest(self.bids), ask: lowest(self.asks), stable: self.complete }
    }

    /// Best bid strictly above best ask.
    pub open spec fn crossed(self) -> bool {
        match (highest(self.bids), lowest(self.asks)) {
            (Some((b, _)), Some((a, _))) => b.0 > a.0,
            _ => false,
        }
    }

    /// Best bid exactly at best ask.
    pub open spec fn locked(self) -> bool {
        match (highest(self.bids), lowest(self.asks)) {
            (Some((b, _)), Some((a, _))) => b.0 == a.0,
            _ => false,
        }
    }

    /// The side an update applies to.
    pub open spec fn side(self, side: Side) -> Map<i64, u32> {
        match side {
            Side::Buy => self.bids,
            Side::Sell => self.asks,
        }
    }

    /// The symbol after an update: one level of one side is written, and the
    /// update says whether the event is over.
    pub open spec fn updated(self, u: PriceLevelUpdate) -> SymbolView {
        match u.side {
            Side::Buy => SymbolView {
                bids: set_level(self.bids, u.price, u.size),
                asks: self.asks,
                complete: u.event_complete(),
            },
            Side::Sell => SymbolView {
                bids: self.bids,
                asks: set_level(self.asks, u.price, u.size),
                complete: u.event_complete(),
            },
        }
    }

    pub open spec fn levels(self) -> nat {
        self.bids.dom().len() + self.asks.dom().len()
    }

    pub open spec fn shares(self) -> nat {
        total(self.bids) + total(self.asks)
    }
}

/// One symbol's two sides.
#[derive(Debug, Clone)]
pub struct SymbolBook<L: Levels> {
    pub bids: L,
    pub asks: L,
    /// False while the feed is partway through an atomic book event.
    pub complete: bool,
}

impl<L: Levels> View for SymbolBook<L> {
    type V = SymbolView;

    open spec fn view(&self) -> SymbolView {
        SymbolView { bids: self.bids.view(), asks: self.asks.view(), complete: self.complete }
    }
}

impl<L: Levels> Default for SymbolBook<L> {
    fn default() -> (r: SymbolBook<L>)
        ensures
            r.wf(),
            r@ == SymbolView::empty(),
    {
        SymbolBook { bids: L::empty(), asks: L::empty(), complete: false }
    }
}

impl<L: Levels> SymbolBook<L> {
    pub open spec fn wf(self) -> bool {
        self.bids.wf() && self.asks.wf()
    }

    /// Highest bid.
    pub fn best_bid(&self) -> (r: Option<(Price, u32)>)
        requires
            self.wf(),
        ensures
            r == self@.touch().bid,
    {
        self.bids.max()
    }

    /// Lowest ask.
    pub fn best_ask(&self) -> (r: Option<(Price, u32)>)
        requires
            self.wf(),
        ensures
            r == self@.touch().ask,
    {
        self.asks.min()
    }

    /// Best bid strictly *above* best ask.
    ///
    /// This is the violation: it means someone would cross themselves, and on a
    /// correctly maintained book it cannot happen at an event boundary.
    ///
    /// Only meaningful when [`Self::is_stable`]: see the module docs.
    pub fn is_crossed(&self) -> (r: bool)
        requires
            self.wf(),
        ensures
            r == self@.crossed(),
    {
        match (self.best_bid(), self.best_ask()) {
            (Some((b, _)), Some((a, _))) => b.0 > a.0,
            _ => false,
        }
    }

    /// Best bid exactly *equal* to best ask.
    ///
    /// Deliberately not folded into [`Self::is_crossed`]. A locked book is a
    /// weaker signal than a crossed one: it is unusual but reachable on a single
    /// venue with non-displayed or discretionary order types, whereas a crossed
    /// book at an event boundary is a bug somewhere. Counting them together would
    /// let a real crossing hide inside a pile of benign locks.
    pub fn is_locked(&self) -> (r: bool)
        requires
            self.wf(),
        ensures
            r == self@.locked(),
    {
        match (self.best_bid(), self.best_ask()) {
            (Some((b, _)), Some((a, _))) => b.0 == a.0,
            _ => false,
        }
    }

    /// The feed is not partway through a multi-message book event.
    pub fn is_stable(&self) -> (r: bool)
        ensures
            r == self@.complete,
    {
        self.complete
    }

    /// Difference between the touch prices, when both sides are populated.
    pub fn spread(&self) -> (r: Option<Price>)
        requires
            self.wf(),
            match (self@.touch().bid, self@.touch().ask) {
                (Some((b, _)), Some((a, _))) => i64::MIN <= a.0 - b.0 <= i64::MAX,
                _ => true,
            },
        ensures
            r == (match (self@.touch().bid, self@.touch().ask) {
                (Some((b, _)), Some((a, _))) => Some(Price((a.0 - b.0) as i64)),
                _ => None,
            }),
    {
        match (self.best_bid(), self.best_ask()) {
            (Some((b, _)), Some((a, _))) => Some(Price::from_raw(a.raw() - b.raw())),
            _ => None,
        }
    }

    fn apply(&mut self, u: &PriceLevelUpdate)
        requires
            old(self).wf(),
        ensures
            final(self).wf(),
            final(self)@ == old(self)@.updated(*u),
    {
        match u.side {
            Side::Buy => self.bids.set(u.price, u.size),
            Side::Sell => self.asks.set(u.price, u.size),
        }
        self.complete = u.event_complete();
    }

    /// How many levels one side has.
    fn depth(&self, side: Side) -> (r: usize)
        requires
            self.wf(),
        ensures
            r == self@.side(side).dom().len(),
    {
        match side {
            Side::Buy => self.bids.len(),
            Side::Sell => self.asks.len(),
        }
    }

    pub fn clear(&mut self)
        requires
            old(self).wf(),
        ensures
            final(self).wf(),
            final(self)@ == SymbolView::empty(),
    {
        self.bids.clear();
        self.asks.clear();
        self.complete = false;
    }
}

/// Counters the audit reports. All derived, never authoritative.
#[derive(Debug, Clone, Copy, PartialEq, Eq, Structural)]
pub struct Stats {
    pub updates: u64,
    pub deletes: u64,
    /// Deletes for a price that held no size. Normal when joining mid-session;
    /// a rising count mid-run means levels are being lost somewhere.
    pub deletes_of_absent: u64,
    /// Bid strictly above ask *at an event boundary*: the real violation.
    pub crossed_when_stable: u64,
    /// Crossed while mid-event. Expected, and counted only to show the gating is
    /// doing something.
    pub crossed_mid_event: u64,
    /// Bid exactly equal to ask at an event boundary. Unusual, not a violation.
    pub locked_when_stable: u64,
    pub trades: u64,
    pub traded_shares: u64,
}

impl Default for Stats {
    fn default() -> (r: Stats)
        ensures
            r@ == StatsView::zero(),
    {
        Stats {
            updates: 0,
            deletes: 0,
            deletes_of_absent: 0,
            crossed_when_stable: 0,
            crossed_mid_event: 0,
            locked_when_stable: 0,
            trades: 0,
            traded_shares: 0,
        }
    }
}

/// The counters as unbounded numbers.
pub struct StatsView {
    pub updates: int,
    pub deletes: int,
    pub deletes_of_absent: int,
    pub crossed_when_stable: int,
    pub crossed_mid_event: int,
    pub locked_when_stable: int,
    pub trades: int,
    pub traded_shares: int,
}

impl View for Stats {
    type V = StatsView;

    open spec fn view(&self) -> StatsView {
        StatsView {
            updates: self.updates as int,
            deletes: self.deletes as int,
            deletes_of_absent: self.deletes_of_absent as int,
            crossed_when_stable: self.crossed_when_stable as int,
            crossed_mid_event: self.crossed_mid_event as int,
            locked_when_stable: self.locked_when_stable as int,
            trades: self.trades as int,
            traded_shares: self.traded_shares as int,
        }
    }
}

/// One if it is so, zero if not.
pub open spec fn one_if(b: bool) -> int {
    if b {
        1
    } else {
        0
    }
}

impl StatsView {
    pub open spec fn zero() -> StatsView {
        StatsView {
            updates: 0,
            deletes: 0,
            deletes_of_absent: 0,
            crossed_when_stable: 0,
            crossed_mid_event: 0,
            locked_when_stable: 0,
            trades: 0,
            traded_shares: 0,
        }
    }

    /// The counters after a symbol goes from `before` to `before.updated(u)`.
    pub open spec fn counted(self, before: SymbolView, u: PriceLevelUpdate) -> StatsView {
        let after = before.updated(u);
        StatsView {
            updates: self.updates + 1,
            deletes: self.deletes + one_if(u.size == 0),
            deletes_of_absent: self.deletes_of_absent + one_if(
                u.size == 0 && !before.side(u.side).contains_key(u.price.0),
            ),
            crossed_when_stable: self.crossed_when_stable + one_if(
                after.crossed() && after.complete,
            ),
            crossed_mid_event: self.crossed_mid_event + one_if(
                after.crossed() && !after.complete,
            ),
            locked_when_stable: self.locked_when_stable + one_if(after.locked() && after.complete),
            ..self
        }
    }

    /// Every update counter can go up by one.
    pub open spec fn room(self) -> bool {
        &&& self.updates < u64::MAX
        &&& self.deletes < u64::MAX
        &&& self.deletes_of_absent < u64::MAX
        &&& self.crossed_when_stable < u64::MAX
        &&& self.crossed_mid_event < u64::MAX
        &&& self.locked_when_stable < u64::MAX
    }
}

/// Every symbol's sides, by the symbol's integer form, and the counters.
#[verifier::ext_equal]
pub struct BookView {
    pub symbols: Map<u64, SymbolView>,
    pub stats: StatsView,
}

impl BookView {
    pub open spec fn empty() -> BookView {
        BookView { symbols: Map::empty(), stats: StatsView::zero() }
    }

    /// With every symbol forgotten. The counters stay.
    pub open spec fn cleared(self) -> BookView {
        BookView { symbols: Map::empty(), stats: self.stats }
    }

    /// What is known of a symbol.
    pub open spec fn symbol(self, key: u64) -> SymbolView {
        if self.symbols.contains_key(key) {
            self.symbols[key]
        } else {
            SymbolView::empty()
        }
    }

    /// The book after a price level update.
    pub open spec fn updated(self, u: PriceLevelUpdate) -> BookView {
        let before = self.symbol(u.symbol.key());
        BookView {
            symbols: self.symbols.insert(u.symbol.key(), before.updated(u)),
            stats: self.stats.counted(before, u),
        }
    }

    /// The touch a price level update leaves behind.
    pub open spec fn touch_after(self, u: PriceLevelUpdate) -> Touch {
        self.symbol(u.symbol.key()).updated(u).touch()
    }

    /// The book after a trade. A break cancels a trade published before, so it
    /// does not add to the traded total.
    pub open spec fn traded(self, t: Trade) -> BookView {
        if t.is_break {
            self
        } else {
            BookView {
                stats: StatsView {
                    trades: self.stats.trades + 1,
                    traded_shares: self.stats.traded_shares + t.size,
                    ..self.stats
                },
                ..self
            }
        }
    }

    /// The book after any message. Only book and trade traffic matters to it.
    pub open spec fn applied(self, m: MessageView) -> BookView {
        match m {
            MessageView::PriceLevel(u) => self.updated(u),
            MessageView::Trade(t) => self.traded(t),
            _ => self,
        }
    }

    /// Every counter has room for one more message.
    pub open spec fn room(self, m: MessageView) -> bool {
        match m {
            MessageView::PriceLevel(u) => self.stats.room(),
            MessageView::Trade(t) => t.is_break || (self.stats.trades < u64::MAX
                && self.stats.traded_shares + t.size <= u64::MAX),
            _ => true,
        }
    }

    /// There are finitely many symbols, each with finitely many levels.
    pub open spec fn finite(self) -> bool {
        &&& self.symbols.dom().finite()
        &&& forall|k: u64| #[trigger]
            self.symbols.contains_key(k) ==> populated(self.symbols[k].bids) && populated(
                self.symbols[k].asks,
            )
    }

    /// Populated levels across every symbol and side.
    pub open spec fn levels(self) -> nat {
        tally(self.symbols.map_values(|s: SymbolView| s.levels()))
    }

    /// Displayed size across every symbol and side.
    pub open spec fn shares(self) -> nat {
        tally(self.symbols.map_values(|s: SymbolView| s.shares()))
    }
}

/// A book after updates in turn.
pub open spec fn updated_by(book: BookView, us: Seq<PriceLevelUpdate>) -> BookView
    decreases us.len(),
{
    if us.len() == 0 {
        book
    } else {
        updated_by(book, us.drop_last()).updated(us.last())
    }
}

/// A crossing is only counted as a violation at an event boundary, and a lock is
/// never counted as a crossing.
pub proof fn law_crossing_is_gated(stats: StatsView, before: SymbolView, u: PriceLevelUpdate)
    ensures
        !u.event_complete() ==> {
            &&& stats.counted(before, u).crossed_when_stable == stats.crossed_when_stable
            &&& stats.counted(before, u).locked_when_stable == stats.locked_when_stable
        },
        before.updated(u).locked() ==> {
            &&& stats.counted(before, u).crossed_when_stable == stats.crossed_when_stable
            &&& stats.counted(before, u).crossed_mid_event == stats.crossed_mid_event
        },
{
}

/// The multiplier of [`SymbolHasher`]: two to the 64th over the golden ratio.
pub const GOLDEN: u64 = 0x9E37_79B9_7F4A_7C15;

/// One multiply over the word so far and the next one.
pub open spec fn mixed(h: u64, n: u64) -> u64 {
    (h ^ n).wrapping_mul(GOLDEN)
}

/// Up to eight bytes as a word, missing ones zero.
pub open spec fn zero_padded(s: Seq<u8>) -> Seq<u8> {
    Seq::new(
        8,
        |i: int|
            if i < s.len() {
                s[i]
            } else {
                0
            },
    )
}

/// The word after bytes are mixed in, eight at a time.
pub open spec fn absorbed(h: u64, s: Seq<u8>) -> u64
    decreases s.len(),
{
    if s.len() == 0 {
        h
    } else if s.len() <= 8 {
        mixed(h, le64(zero_padded(s), 0) as u64)
    } else {
        absorbed(mixed(h, le64(zero_padded(s.take(8)), 0) as u64), s.skip(8))
    }
}

/// Hasher for [`Symbol`], which is already eight bytes of entropy-poor ASCII.
///
/// Symbols come from an exchange feed, not an attacker, so one multiply and one
/// shift are enough to spread the low-entropy ticker bytes across the whole word.
/// [`Book`] keeps its map's default hasher: what a map with any other hasher holds
/// is not known to the proofs.
pub struct SymbolHasher(u64);

impl Default for SymbolHasher {
    fn default() -> (r: SymbolHasher)
        ensures
            r@ == 0,
    {
        SymbolHasher(0)
    }
}

impl View for SymbolHasher {
    type V = u64;

    closed spec fn view(&self) -> u64 {
        self.0
    }
}

impl SymbolHasher {
    pub fn write(&mut self, bytes: &[u8])
        ensures
            final(self)@ == absorbed(old(self)@, bytes@),
    {
        let mut at: usize = 0;
        assert(bytes@.skip(0) =~= bytes@);
        while at < bytes.len()
            invariant
                at <= bytes@.len(),
                absorbed(self.0, bytes@.skip(at as int)) == absorbed(old(self).0, bytes@),
            decreases bytes@.len() - at,
        {
            let ghost rest = bytes@.skip(at as int);
            let n: usize = if bytes.len() - at < 8 {
                bytes.len() - at
            } else {
                8
            };
            let mut buf: [u8; 8] = [0; 8];
            let mut i: usize = 0;
            while i < n
                invariant
                    i <= n <= 8,
                    at + n <= bytes.len(),
                    rest == bytes@.skip(at as int),
                    forall|j: int| 0 <= j < i ==> buf@[j] == rest[j],
                    forall|j: int| i <= j < 8 ==> buf@[j] == 0,
                decreases n - i,
            {
                buf[i] = bytes[at + i];
                i = i + 1;
            }
            self.write_u64(crate::bytes::u64_le(&buf, 0));
            proof {
                assert(buf@ =~= zero_padded(rest.take(n as int)));
                assert(rest.take(rest.len() as int) =~= rest);
                assert(rest.skip(n as int) =~= bytes@.skip(at + n));
            }
            at = at + n;
        }
    }

    pub fn write_u64(&mut self, n: u64)
        ensures
            final(self)@ == mixed(old(self)@, n),
    {
        self.0 = (self.0 ^ n).wrapping_mul(GOLDEN);
    }

    pub fn finish(&self) -> (r: u64)
        ensures
            r == self@ ^ (self@ >> 32),
    {
        self.0 ^ (self.0 >> 32)
    }
}

/// Every symbol's book.
pub struct Book<L: Levels> {
    /// Keyed by the integer form of the symbol.
    symbols: HashMap<u64, SymbolBook<L>>,
    pub stats: Stats,
}

impl<L: Levels> View for Book<L> {
    type V = BookView;

    closed spec fn view(&self) -> BookView {
        BookView {
            symbols: self.symbols@.map_values(|b: SymbolBook<L>| b@),
            stats: self.stats@,
        }
    }
}

impl<L: Levels> Default for Book<L> {
    fn default() -> (r: Book<L>)
        ensures
            r.wf(),
            r@ == BookView::empty(),
    {
        broadcast use vstd::std_specs::hash::group_hash_axioms;

        let r = Book { symbols: HashMap::new(), stats: Stats::default() };
        assert(r@.symbols =~= Map::<u64, SymbolView>::empty());
        r
    }
}

impl<L: Levels> Book<L> {
    /// Every symbol's sides are sound.
    pub closed spec fn wf(self) -> bool {
        forall|k: u64| #[trigger] self.symbols@.contains_key(k) ==> self.symbols@[k].wf()
    }

    /// A book holds finitely many levels, none of them empty.
    pub proof fn lemma_finite(&self)
        requires
            self.wf(),
        ensures
            self@.finite(),
    {
        broadcast use vstd::std_specs::hash::group_hash_axioms;

        assert(self@.symbols.dom() =~= self.symbols@.dom());
        assert forall|k: u64| #[trigger] self@.symbols.contains_key(k) implies populated(
            self@.symbols[k].bids,
        ) && populated(self@.symbols[k].asks) by {
            assert(self.symbols@.contains_key(k));
            self.symbols@[k].bids.lemma_populated();
            self.symbols@[k].asks.lemma_populated();
        }
    }

    pub fn new() -> (r: Book<L>)
        ensures
            r.wf(),
            r@ == BookView::empty(),
    {
        Book::default()
    }

    /// Pre-size the symbol table.
    ///
    /// Growing a hash map into a full session's symbols rehashes every entry
    /// several times, and every rehash lands in the middle of the hot path.
    pub fn with_capacity(symbols: usize) -> (r: Book<L>)
        ensures
            r.wf(),
            r@ == BookView::empty(),
    {
        broadcast use vstd::std_specs::hash::group_hash_axioms;

        let r = Book { symbols: HashMap::with_capacity(symbols), stats: Stats::default() };
        assert(r@.symbols =~= Map::<u64, SymbolView>::empty());
        r
    }

    pub fn get(&self, symbol: Symbol) -> (r: Option<&SymbolBook<L>>)
        requires
            self.wf(),
        ensures
            match r {
                Some(b) => b.wf() && self@.symbols.contains_pair(symbol.key(), b@),
                None => !self@.symbols.contains_key(symbol.key()),
            },
    {
        broadcast use vstd::std_specs::hash::group_hash_axioms;

        self.symbols.get(&symbol.as_u64())
    }

    pub fn len(&self) -> (r: usize)
        ensures
            r == self@.symbols.dom().len(),
    {
        broadcast use vstd::std_specs::hash::group_hash_axioms;

        assert(self@.symbols.dom() =~= self.symbols@.dom());
        self.symbols.len()
    }

    pub fn is_empty(&self) -> (r: bool)
        ensures
            r == (self@.symbols.dom().len() == 0),
    {
        self.len() == 0
    }

    /// Apply one decoded message. Anything that is not book or trade traffic is
    /// ignored rather than rejected.
    pub fn apply(&mut self, msg: &Message<'_>)
        requires
            old(self).wf(),
            old(self)@.room(msg@),
        ensures
            final(self).wf(),
            final(self)@ == old(self)@.applied(msg@),
    {
        match msg {
            Message::PriceLevel(u) => {
                self.apply_price_level(u);
            },
            Message::Trade(t) => {
                if !t.is_break {
                    self.stats.trades = self.stats.trades + 1;
                    self.stats.traded_shares = self.stats.traded_shares + t.size as u64;
                }
            },
            _ => {},
        }
    }

    /// The hot path: nearly all feed traffic reaches here. Returns the touch it
    /// had to read anyway, so a consumer does not look the symbol up again.
    pub fn apply_price_level(&mut self, u: &PriceLevelUpdate) -> (r: Touch)
        requires
            old(self).wf(),
            old(self)@.stats.room(),
        ensures
            final(self).wf(),
            final(self)@ == old(self)@.updated(*u),
            r == old(self)@.touch_after(*u),
    {
        broadcast use vstd::std_specs::hash::group_hash_axioms;

        let ghost before = self@.symbol(u.symbol.key());
        let entry = self.symbols.entry(u.symbol.as_u64()).or_insert(SymbolBook::default());
        proof {
            entry.bids.lemma_populated();
            entry.asks.lemma_populated();
        }
        self.stats.updates = self.stats.updates + 1;
        if u.size == 0 {
            self.stats.deletes = self.stats.deletes + 1;
            let present: usize = entry.depth(u.side);
            entry.apply(u);
            let after: usize = entry.depth(u.side);
            if present == after {
                self.stats.deletes_of_absent = self.stats.deletes_of_absent + 1;
            }
        } else {
            entry.apply(u);
        }
        let touch = Touch {
            bid: entry.best_bid(),
            ask: entry.best_ask(),
            stable: entry.is_stable(),
        };
        if let (Some((b, _)), Some((a, _))) = (touch.bid, touch.ask) {
            if b.0 > a.0 {
                if touch.stable {
                    self.stats.crossed_when_stable = self.stats.crossed_when_stable + 1;
                } else {
                    self.stats.crossed_mid_event = self.stats.crossed_mid_event + 1;
                }
            } else if touch.stable && b.0 == a.0 {
                self.stats.locked_when_stable = self.stats.locked_when_stable + 1;
            }
        }
        assert(self@.symbols =~= old(self)@.updated(*u).symbols);
        touch
    }

    /// The keys of every symbol, once each, in no particular order.
    fn keys(&self) -> (r: Vec<u64>)
        ensures
            r@.no_duplicates(),
            r@.to_set() == self.symbols@.dom(),
            r@.len() == self.symbols@.dom().len(),
    {
        broadcast use vstd::std_specs::hash::group_hash_axioms;

        let all = self.symbols.keys();
        assert(all.remaining().unref() =~= all.remaining().map_values(|k: &u64| *k));
        let mut out: Vec<u64> = Vec::new();
        for k in it: all
            invariant
                it.seq().map_values(|k: &u64| *k).no_duplicates(),
                it.seq().map_values(|k: &u64| *k).to_set() == self.symbols@.dom(),
                it.seq().len() == self.symbols@.dom().len(),
                out@ == it.seq().take(it.index()).map_values(|k: &u64| *k),
                it.index() == it.seq().len() ==> out@ == it.seq().map_values(|k: &u64| *k),
        {
            out.push(*k);
        }
        out
    }

    /// Every symbol and its book, in no particular order.
    pub fn iter(&self) -> (r: Vec<(Symbol, &SymbolBook<L>)>)
        requires
            self.wf(),
        ensures
            self@.symbols.dom().finite(),
            r@.len() == self@.symbols.dom().len(),
            forall|i: int|
                0 <= i < r@.len() ==> (#[trigger] r@[i]).1.wf() && self@.symbols.contains_pair(
                    r@[i].0.key(),
                    r@[i].1@,
                ),
            forall|i: int, j: int|
                0 <= i < j < r@.len() ==> (#[trigger] r@[i]).0.key() != (#[trigger] r@[j]).0.key(),
    {
        broadcast use vstd::std_specs::hash::group_hash_axioms;

        let keys = self.keys();
        let mut out: Vec<(Symbol, &SymbolBook<L>)> = Vec::new();
        let mut i: usize = 0;
        while i < keys.len()
            invariant
                i <= keys@.len(),
                self.wf(),
                keys@.to_set() == self.symbols@.dom(),
                out@.len() == i,
                forall|j: int| 0 <= j < i ==> (#[trigger] out@[j]).0.key() == keys@[j],
                forall|j: int|
                    0 <= j < i ==> self.symbols@.contains_pair(keys@[j], *(#[trigger] out@[j]).1),
            decreases keys@.len() - i,
        {
            assert(keys@.to_set().contains(keys@[i as int]));
            assert(self.symbols@.contains_key(keys@[i as int]));
            let key: u64 = keys[i];
            if let Some(b) = self.symbols.get(&key) {
                out.push((Symbol::from_u64(key), b));
            }
            i = i + 1;
        }
        assert(self@.symbols.dom() =~= self.symbols@.dom());
        out
    }

    /// Total displayed size across every symbol and side.
    pub fn total_size(&self) -> (r: u64)
        requires
            self.wf(),
            self@.shares() <= u64::MAX,
        ensures
            r == self@.shares(),
    {
        broadcast use vstd::std_specs::hash::group_hash_axioms;

        let keys = self.keys();
        let ghost each = self@.symbols.map_values(|s: SymbolView| s.shares());
        let ghost vals = keys@.map_values(|k: u64| each[k]);
        proof {
            assert(each.dom() =~= self.symbols@.dom());
            lemma_tally_listing(each, keys@);
        }
        let mut acc: u64 = 0;
        let mut i: usize = 0;
        while i < keys.len()
            invariant
                i <= keys@.len(),
                self.wf(),
                keys@.to_set() == self.symbols@.dom(),
                each == self@.symbols.map_values(|s: SymbolView| s.shares()),
                vals == keys@.map_values(|k: u64| each[k]),
                sum(vals) <= u64::MAX,
                acc == sum(vals.take(i as int)),
            decreases keys@.len() - i,
        {
            proof {
                assert(keys@.to_set().contains(keys@[i as int]));
                assert(self.symbols@.contains_key(keys@[i as int]));
                assert(vals.take(i + 1).drop_last() =~= vals.take(i as int));
                lemma_sum_prefix(vals, i + 1);
            }
            if let Some(b) = self.symbols.get(&keys[i]) {
                acc = acc + (b.bids.total_size() + b.asks.total_size());
            }
            i = i + 1;
        }
        assert(vals.take(i as int) =~= vals);
        acc
    }

    /// Populated levels across every symbol and side.
    pub fn total_levels(&self) -> (r: usize)
        requires
            self.wf(),
            self@.levels() <= usize::MAX,
        ensures
            r == self@.levels(),
    {
        broadcast use vstd::std_specs::hash::group_hash_axioms;

        let keys = self.keys();
        let ghost each = self@.symbols.map_values(|s: SymbolView| s.levels());
        let ghost vals = keys@.map_values(|k: u64| each[k]);
        proof {
            assert(each.dom() =~= self.symbols@.dom());
            lemma_tally_listing(each, keys@);
        }
        let mut acc: usize = 0;
        let mut i: usize = 0;
        while i < keys.len()
            invariant
                i <= keys@.len(),
                self.wf(),
                keys@.to_set() == self.symbols@.dom(),
                each == self@.symbols.map_values(|s: SymbolView| s.levels()),
                vals == keys@.map_values(|k: u64| each[k]),
                sum(vals) <= usize::MAX,
                acc == sum(vals.take(i as int)),
            decreases keys@.len() - i,
        {
            proof {
                assert(keys@.to_set().contains(keys@[i as int]));
                assert(self.symbols@.contains_key(keys@[i as int]));
                assert(vals.take(i + 1).drop_last() =~= vals.take(i as int));
                lemma_sum_prefix(vals, i + 1);
            }
            if let Some(b) = self.symbols.get(&keys[i]) {
                acc = acc + (b.bids.len() + b.asks.len());
            }
            i = i + 1;
        }
        assert(vals.take(i as int) =~= vals);
        acc
    }

    /// The counters.
    pub fn counters(&self) -> (r: Stats)
        ensures
            r@ == self@.stats,
    {
        self.stats
    }

    /// Forget every symbol. The feed's session id changed, so any retained state
    /// belongs to a stream that no longer exists. The counters stay.
    pub fn clear(&mut self)
        ensures
            final(self).wf(),
            final(self)@ == old(self)@.cleared(),
    {
        broadcast use vstd::std_specs::hash::group_hash_axioms;

        self.symbols.clear();
        assert(self@.symbols =~= Map::<u64, SymbolView>::empty());
    }
}


/// A book's counters are those it shows.
proof fn law_a_book_shows_its_counters<L: Levels>(b: Book<L>)
    ensures
        b@.stats == b.stats@,
{
}

}
