//! A generated market that behaves like one.
//!
//! The live levels are tracked, not just the mid: levels persist, so a bid posted
//! before the mid drifted down would sit above an ask posted after. A generator
//! for a system whose headline check is "the book never crosses" has to be able
//! to produce a book that does not cross.
use vstd::prelude::*;

use crate::deep::messages::{PriceLevelUpdate, Side};
use crate::deep::price::Price;
use crate::deep::symbol::Symbol;

verus! {

/// Ladder depth at which the generator stops posting bids, or, if bids are full,
/// would rather post asks.
pub const DEPTH: usize = 4;

/// One cent, in price units.
pub const TICK: i64 = 100;

/// Chances are stated in ten-thousandths.
pub const WHOLE: u64 = 10_000;

/// One step of a 64-bit xorshift generator.
pub open spec fn xorshift(x: u64) -> u64 {
    let a = x ^ (x << 13u64);
    let b = a ^ (a >> 7u64);
    b ^ (b << 17u64)
}

/// A draw below `n`, or zero if there is nothing below it.
pub open spec fn drawn(x: u64, n: u64) -> u64 {
    if n == 0 {
        0
    } else {
        xorshift(x) % n
    }
}

/// Deterministic xorshift. Seeded explicitly so a generated capture is
/// reproducible: a demo that shows something different every load cannot be
/// used to reproduce a bug.
pub struct Rng(pub u64);

impl Rng {
    pub fn next(&mut self) -> (r: u64)
        ensures
            r == xorshift(old(self).0),
            final(self).0 == r,
    {
        self.0 = self.0 ^ (self.0 << 13u64);
        self.0 = self.0 ^ (self.0 >> 7u64);
        self.0 = self.0 ^ (self.0 << 17u64);
        self.0
    }

    pub fn below(&mut self, n: u64) -> (r: u64)
        ensures
            r == drawn(old(self).0, n),
            final(self).0 == xorshift(old(self).0),
    {
        let x: u64 = self.next();
        if n == 0 {
            0
        } else {
            x % n
        }
    }

    /// True with the given chance in ten thousand.
    pub fn chance(&mut self, rate: u64) -> (r: bool)
        ensures
            r == (drawn(old(self).0, WHOLE) < rate),
            final(self).0 == xorshift(old(self).0),
    {
        self.below(WHOLE) < rate
    }
}

/// Where `p` goes in an ascending sequence.
pub open spec fn rank(s: Seq<i64>, p: i64) -> int
    decreases s.len(),
{
    if s.len() == 0 {
        0
    } else if s.last() < p {
        s.len() as int
    } else {
        rank(s.drop_last(), p)
    }
}

/// An ascending sequence with `p` put in its place.
pub open spec fn with_price(s: Seq<i64>, p: i64) -> Seq<i64> {
    s.insert(rank(s, p), p)
}

/// Strictly ascending.
pub open spec fn ascending(s: Seq<i64>) -> bool {
    forall|i: int, j: int| 0 <= i < j < s.len() ==> #[trigger] s[i] < #[trigger] s[j]
}

/// Per-symbol state.
#[verifier::ext_equal]
pub struct QuoteView {
    pub symbol: Symbol,
    pub mid: int,
    pub bids: Seq<i64>,
    pub asks: Seq<i64>,
}

/// The whole market and the generator driving it.
#[verifier::ext_equal]
pub struct MarketView {
    pub rng: u64,
    pub symbols: Seq<QuoteView>,
}

/// An update as the feed would publish it.
pub open spec fn update(
    buy: bool,
    complete: bool,
    timestamp: i64,
    symbol: Symbol,
    size: u32,
    price: i64,
) -> PriceLevelUpdate {
    PriceLevelUpdate {
        side: if buy {
            Side::Buy
        } else {
            Side::Sell
        },
        flags: if complete {
            1
        } else {
            0
        },
        timestamp,
        symbol,
        size,
        price: Price(price),
    }
}

/// The smaller of two numbers.
pub open spec fn smaller(a: int, b: int) -> int {
    if a < b {
        a
    } else {
        b
    }
}

/// The larger of two numbers.
pub open spec fn larger(a: int, b: int) -> int {
    if a > b {
        a
    } else {
        b
    }
}

impl QuoteView {
    /// A bid sits below the best ask and below the mid.
    pub open spec fn bid_price(self, k: int) -> int {
        let ceiling = if self.asks.len() > 0 {
            smaller(self.asks[0] - TICK, self.mid - TICK)
        } else {
            self.mid - TICK
        };
        ceiling - DEPTH * TICK + k * TICK
    }

    /// An ask sits above the best bid and above the mid.
    pub open spec fn ask_price(self, k: int) -> int {
        let floor = if self.bids.len() > 0 {
            larger(self.bids.last() + TICK, self.mid + TICK)
        } else {
            self.mid + TICK
        };
        floor + k * TICK
    }

    /// With one level gone.
    pub open spec fn removed(self, from_bids: bool, at: int) -> QuoteView {
        if from_bids {
            QuoteView { bids: self.bids.remove(at), ..self }
        } else {
            QuoteView { asks: self.asks.remove(at), ..self }
        }
    }

    /// With one level more.
    pub open spec fn posted(self, bid: bool, p: i64) -> QuoteView {
        if bid {
            QuoteView { bids: with_price(self.bids, p), ..self }
        } else {
            QuoteView { asks: with_price(self.asks, p), ..self }
        }
    }

    /// The mid a step away, kept well above zero.
    pub open spec fn drifted(self, k: int) -> QuoteView {
        QuoteView { mid: larger(self.mid + (k - 1) * TICK, 2 * TICK * DEPTH), ..self }
    }

    /// Both sides are in order, every bid is below every ask, and nothing has
    /// wandered past `top`.
    pub open spec fn sound(self, top: int) -> bool {
        &&& 800 <= self.mid <= top
        &&& ascending(self.bids)
        &&& ascending(self.asks)
        &&& forall|i: int| 0 <= i < self.bids.len() ==> 0 < #[trigger] self.bids[i] < top
        &&& forall|i: int| 0 <= i < self.asks.len() ==> 0 < #[trigger] self.asks[i] <= top + 400
        &&& forall|i: int, j: int|
            0 <= i < self.bids.len() && 0 <= j < self.asks.len() ==> #[trigger] self.bids[i]
                < #[trigger] self.asks[j]
    }
}

impl MarketView {
    /// Every symbol is sound.
    pub open spec fn sound(self, top: int) -> bool {
        &&& self.symbols.len() > 0
        &&& self.symbols.len() <= u64::MAX
        &&& forall|i: int| 0 <= i < self.symbols.len() ==> (#[trigger] self.symbols[i]).sound(top)
    }

    /// The market with another generator state and one symbol replaced.
    pub open spec fn with(self, rng: u64, idx: int, s: QuoteView) -> MarketView {
        MarketView { rng, symbols: self.symbols.update(idx, s) }
    }

    /// Post a level. Bids stop at the depth limit; the price is drawn from a few
    /// ticks next to the touch, and a price already quoted or not above zero is
    /// passed over. Now and then the mid drifts afterwards.
    pub open spec fn post(
        self,
        rng: u64,
        idx: int,
        complete: bool,
        ts: i64,
    ) -> (MarketView, Option<PriceLevelUpdate>) {
        let s = self.symbols[idx];
        let forced = s.bids.len() >= DEPTH || s.asks.len() >= DEPTH;
        let bid = if s.bids.len() >= DEPTH {
            false
        } else if s.asks.len() >= DEPTH {
            true
        } else {
            drawn(rng, 2) == 0
        };
        let r1 = if forced {
            rng
        } else {
            xorshift(rng)
        };
        let k = drawn(r1, DEPTH as u64);
        let r2 = xorshift(r1);
        let p = if bid {
            s.bid_price(k as int) as i64
        } else {
            s.ask_price(k as int) as i64
        };
        let refused = if bid {
            p <= 0 || s.bids.contains(p)
        } else {
            s.asks.contains(p)
        };
        if refused {
            (MarketView { rng: r2, ..self }, None)
        } else {
            let size = ((1 + drawn(r2, 20)) * 100) as u32;
            let r3 = xorshift(r2);
            let r4 = xorshift(r3);
            let after = s.posted(bid, p);
            let u = update(bid, complete, ts, s.symbol, size, p);
            if drawn(r3, WHOLE) < 300 {
                (
                    self.with(xorshift(r4), idx, after.drifted(drawn(r4, 3) as int)),
                    Some(u),
                )
            } else {
                (self.with(r4, idx, after), Some(u))
            }
        }
    }

    /// One attempt at a message: delete a level of a random symbol at the given
    /// rate, post one otherwise. One in ten is mid-event.
    pub open spec fn attempt(self, delete_rate: u64, ts: i64) -> (
        MarketView,
        Option<PriceLevelUpdate>,
    ) {
        let idx = drawn(self.rng, self.symbols.len() as u64) as int;
        let r1 = xorshift(self.rng);
        let complete = !(drawn(r1, WHOLE) < 1_000);
        let r2 = xorshift(r1);
        let r3 = xorshift(r2);
        let s = self.symbols[idx];
        if drawn(r2, WHOLE) < delete_rate {
            let from_bids = drawn(r3, 2) == 0;
            let side = if from_bids {
                s.bids
            } else {
                s.asks
            };
            let r4 = xorshift(r3);
            if side.len() > 0 {
                let at = drawn(r4, side.len() as u64) as int;
                (
                    self.with(xorshift(r4), idx, s.removed(from_bids, at)),
                    Some(update(from_bids, complete, ts, s.symbol, 0, side[at])),
                )
            } else {
                self.post(r4, idx, complete, ts)
            }
        } else {
            self.post(r3, idx, complete, ts)
        }
    }
}

/// Putting a price in its place keeps a sequence in order, and adds only it.
proof fn lemma_with_price(s: Seq<i64>, p: i64)
    requires
        ascending(s),
        !s.contains(p),
    ensures
        0 <= rank(s, p) <= s.len(),
        forall|i: int| 0 <= i < rank(s, p) ==> s[i] < p,
        forall|i: int| rank(s, p) <= i < s.len() ==> p < s[i],
        ascending(with_price(s, p)),
        forall|q: i64| #[trigger] with_price(s, p).contains(q) <==> s.contains(q) || q == p,
    decreases s.len(),
{
    lemma_rank(s, p);
    let t = with_price(s, p);
    let r = rank(s, p);
    assert forall|q: i64| #[trigger] t.contains(q) <==> s.contains(q) || q == p by {
        if s.contains(q) {
            let i = choose|i: int| 0 <= i < s.len() && s[i] == q;
            assert(t[if i < r {
                i
            } else {
                i + 1
            }] == q);
        }
        if q == p {
            assert(t[r] == p);
        }
        if t.contains(q) {
            let i = choose|i: int| 0 <= i < t.len() && t[i] == q;
            if i != r {
                assert(s[if i < r {
                    i
                } else {
                    i - 1
                }] == q);
            }
        }
    }
}

proof fn lemma_rank(s: Seq<i64>, p: i64)
    requires
        ascending(s),
        !s.contains(p),
    ensures
        0 <= rank(s, p) <= s.len(),
        forall|i: int| 0 <= i < rank(s, p) ==> s[i] < p,
        forall|i: int| rank(s, p) <= i < s.len() ==> p < s[i],
    decreases s.len(),
{
    if s.len() > 0 {
        let n = s.len() - 1;
        assert(s[n] != p) by {
            assert(s.contains(s[n]));
        }
        if s.last() >= p {
            let front = s.drop_last();
            assert(!front.contains(p)) by {
                if front.contains(p) {
                    let i = choose|i: int| 0 <= i < front.len() && front[i] == p;
                    assert(s[i] == p);
                }
            }
            lemma_rank(front, p);
            assert forall|i: int| rank(s, p) <= i < s.len() implies p < s[i] by {
                if i < n {
                    assert(front[i] == s[i]);
                }
            }
            assert forall|i: int| 0 <= i < rank(s, p) implies s[i] < p by {
                assert(front[i] == s[i]);
            }
        }
    }
}

/// Taking a price out keeps a sequence in order, and takes only it.
proof fn lemma_without(s: Seq<i64>, at: int)
    requires
        ascending(s),
        0 <= at < s.len(),
    ensures
        ascending(s.remove(at)),
        forall|q: i64| #[trigger] s.remove(at).contains(q) <==> s.contains(q) && q != s[at],
{
    let t = s.remove(at);
    assert forall|q: i64| #[trigger] t.contains(q) <==> s.contains(q) && q != s[at] by {
        if t.contains(q) {
            let i = choose|i: int| 0 <= i < t.len() && t[i] == q;
            let j = if i < at {
                i
            } else {
                i + 1
            };
            assert(s[j] == q);
            if j < at {
                assert(s[j] < s[at]);
            } else {
                assert(s[at] < s[j]);
            }
        }
        if s.contains(q) && q != s[at] {
            let i = choose|i: int| 0 <= i < s.len() && s[i] == q;
            assert(t[if i < at {
                i
            } else {
                i - 1
            }] == q);
        }
    }
}

/// Posting at a drawn price keeps a symbol sound.
proof fn lemma_posted_sound(s: QuoteView, bid: bool, k: int, p: i64, top: int)
    requires
        s.sound(top),
        0 <= k < DEPTH,
        top <= 0x1000_0000_0000_0000,
        p == if bid {
            s.bid_price(k)
        } else {
            s.ask_price(k)
        },
        bid ==> p > 0 && !s.bids.contains(p),
        !bid ==> !s.asks.contains(p),
    ensures
        s.posted(bid, p).sound(top),
{
    let t = s.posted(bid, p);
    if bid {
        lemma_with_price(s.bids, p);
        assert forall|j: int| 0 <= j < s.asks.len() implies p < s.asks[j] by {
            assert(j == 0 || s.asks[0] < s.asks[j]);
        }
        assert forall|i: int| 0 <= i < t.bids.len() implies 0 < #[trigger] t.bids[i] < top && (
        forall|j: int| 0 <= j < t.asks.len() ==> t.bids[i] < #[trigger] t.asks[j]) by {
            let r = rank(s.bids, p);
            if i < r {
                assert(t.bids[i] == s.bids[i]);
            } else if i > r {
                assert(t.bids[i] == s.bids[i - 1]);
            }
        }
    } else {
        lemma_with_price(s.asks, p);
        assert forall|i: int| 0 <= i < s.bids.len() implies s.bids[i] < p by {
            assert(i == s.bids.len() - 1 || s.bids[i] < s.bids[s.bids.len() - 1]);
        }
        assert forall|j: int| 0 <= j < t.asks.len() implies 0 < #[trigger] t.asks[j] <= top + 400
            && (forall|i: int| 0 <= i < t.bids.len() ==> #[trigger] t.bids[i] < t.asks[j]) by {
            let r = rank(s.asks, p);
            if j < r {
                assert(t.asks[j] == s.asks[j]);
            } else if j > r {
                assert(t.asks[j] == s.asks[j - 1]);
            }
        }
    }
}

/// What posting at a drawn price does: the symbol stays sound and one price is
/// added.
pub proof fn lemma_posted(s: QuoteView, bid: bool, k: int, p: i64, top: int)
    requires
        s.sound(top),
        0 <= k < DEPTH,
        800 <= top <= 0x1000_0000_0000_0000,
        p == if bid {
            s.bid_price(k) as i64
        } else {
            s.ask_price(k) as i64
        },
        bid ==> p > 0 && !s.bids.contains(p),
        !bid ==> !s.asks.contains(p),
    ensures
        s.posted(bid, p).sound(top),
        forall|j: int| 0 <= j < 3 ==> (#[trigger] s.posted(bid, p).drifted(j)).sound(top + 100),
        forall|q: i64| #[trigger]
            s.posted(bid, p).bids.contains(q) <==> s.bids.contains(q) || (bid && q == p),
        forall|q: i64| #[trigger]
            s.posted(bid, p).asks.contains(q) <==> s.asks.contains(q) || (!bid && q == p),
{
    lemma_prices_fit(s, k, top);
    lemma_posted_sound(s, bid, k, p, top);
    if bid {
        lemma_with_price(s.bids, p);
    } else {
        lemma_with_price(s.asks, p);
    }
    assert forall|j: int| 0 <= j < 3 implies (#[trigger] s.posted(bid, p).drifted(j)).sound(
        top + 100,
    ) by {
        lemma_drifted_sound(s.posted(bid, p), j, top);
    }
}

/// What removing a level does: the symbol stays sound and one price is gone.
pub proof fn lemma_removed(s: QuoteView, from_bids: bool, at: int, top: int)
    requires
        s.sound(top),
        from_bids ==> 0 <= at < s.bids.len(),
        !from_bids ==> 0 <= at < s.asks.len(),
    ensures
        s.removed(from_bids, at).sound(top),
        forall|q: i64| #[trigger]
            s.removed(from_bids, at).bids.contains(q) <==> s.bids.contains(q) && !(from_bids && q
                == s.bids[at]),
        forall|q: i64| #[trigger]
            s.removed(from_bids, at).asks.contains(q) <==> s.asks.contains(q) && !(!from_bids && q
                == s.asks[at]),
        s.bids.len() <= i64::MAX,
        s.asks.len() <= i64::MAX,
{
    lemma_removed_sound(s, from_bids, at, top);
    lemma_len_fits(s, top);
    if from_bids {
        lemma_without(s.bids, at);
    } else {
        lemma_without(s.asks, at);
    }
}

/// Drawn prices fit, so nothing is lost in the cast.
proof fn lemma_prices_fit(s: QuoteView, k: int, top: int)
    requires
        s.sound(top),
        0 <= k < DEPTH,
        top <= 0x1000_0000_0000_0000,
    ensures
        -1000 <= s.bid_price(k) <= top,
        0 < s.ask_price(k) <= top + 400,
{
}

/// Removing a level keeps a symbol sound.
proof fn lemma_removed_sound(s: QuoteView, from_bids: bool, at: int, top: int)
    requires
        s.sound(top),
        from_bids ==> 0 <= at < s.bids.len(),
        !from_bids ==> 0 <= at < s.asks.len(),
    ensures
        s.removed(from_bids, at).sound(top),
{
    if from_bids {
        lemma_without(s.bids, at);
    } else {
        lemma_without(s.asks, at);
    }
}

proof fn lemma_drifted_sound(s: QuoteView, k: int, top: int)
    requires
        s.sound(top),
        0 <= k < 3,
        top >= 800,
    ensures
        s.drifted(k).sound(top + 100),
{
}

proof fn lemma_sound_widens(m: MarketView, top: int, idx: int, s: QuoteView, rng: u64)
    requires
        m.sound(top),
        s.sound(top + 100),
        0 <= idx < m.symbols.len(),
    ensures
        m.with(rng, idx, s).sound(top + 100),
        m.sound(top + 100),
{
}

/// An attempt keeps the market sound: in particular, no bid ever reaches an ask.
pub proof fn law_the_market_never_crosses(m: MarketView, delete_rate: u64, ts: i64, top: int)
    requires
        m.sound(top),
        800 <= top <= 0x1000_0000_0000_0000,
    ensures
        m.attempt(delete_rate, ts).0.sound(top + 100),
        m.attempt(delete_rate, ts).0.symbols.len() == m.symbols.len(),
{
    let idx = drawn(m.rng, m.symbols.len() as u64) as int;
    let r1 = xorshift(m.rng);
    let complete = !(drawn(r1, WHOLE) < 1_000);
    let r2 = xorshift(r1);
    let r3 = xorshift(r2);
    let s = m.symbols[idx];
    assert(s.sound(top));
    if drawn(r2, WHOLE) < delete_rate {
        let from_bids = drawn(r3, 2) == 0;
        let side = if from_bids {
            s.bids
        } else {
            s.asks
        };
        let r4 = xorshift(r3);
        if side.len() > 0 {
            lemma_len_fits(s, top);
            let at = drawn(r4, side.len() as u64) as int;
            lemma_removed_sound(s, from_bids, at, top);
            lemma_sound_widens(m, top, idx, s.removed(from_bids, at), xorshift(r4));
        } else {
            lemma_post_sound(m, r4, idx, complete, ts, top);
        }
    } else {
        lemma_post_sound(m, r3, idx, complete, ts, top);
    }
}

/// An ascending sequence of positive numbers is no longer than its largest.
proof fn lemma_ascending_len(s: Seq<i64>)
    requires
        ascending(s),
        s.len() > 0 ==> s[0] > 0,
    ensures
        s.len() <= i64::MAX,
        s.len() > 0 ==> s.len() <= s.last(),
    decreases s.len(),
{
    if s.len() > 1 {
        lemma_ascending_len(s.drop_last());
        assert(s[s.len() - 2] < s[s.len() - 1]);
    }
}

proof fn lemma_len_fits(s: QuoteView, top: int)
    requires
        s.sound(top),
    ensures
        s.bids.len() <= i64::MAX,
        s.asks.len() <= i64::MAX,
{
    lemma_ascending_len(s.bids);
    lemma_ascending_len(s.asks);
}

proof fn lemma_post_sound(
    m: MarketView,
    rng: u64,
    idx: int,
    complete: bool,
    ts: i64,
    top: int,
)
    requires
        m.sound(top),
        800 <= top <= 0x1000_0000_0000_0000,
        0 <= idx < m.symbols.len(),
    ensures
        m.post(rng, idx, complete, ts).0.sound(top + 100),
        m.post(rng, idx, complete, ts).0.symbols.len() == m.symbols.len(),
{
    let s = m.symbols[idx];
    assert(s.sound(top));
    let forced = s.bids.len() >= DEPTH || s.asks.len() >= DEPTH;
    let bid = if s.bids.len() >= DEPTH {
        false
    } else if s.asks.len() >= DEPTH {
        true
    } else {
        drawn(rng, 2) == 0
    };
    let r1 = if forced {
        rng
    } else {
        xorshift(rng)
    };
    let k = drawn(r1, DEPTH as u64) as int;
    lemma_prices_fit(s, k, top);
    let r2 = xorshift(r1);
    let p = if bid {
        s.bid_price(k) as i64
    } else {
        s.ask_price(k) as i64
    };
    let refused = if bid {
        p <= 0 || s.bids.contains(p)
    } else {
        s.asks.contains(p)
    };
    if !refused {
        lemma_posted_sound(s, bid, k, p, top);
        let after = s.posted(bid, p);
        let r4 = xorshift(xorshift(r2));
        lemma_drifted_sound(after, drawn(r4, 3) as int, top);
        lemma_sound_widens(m, top, idx, after.drifted(drawn(r4, 3) as int), xorshift(r4));
        lemma_sound_widens(m, top, idx, after, r4);
    } else {
        lemma_sound_widens(m, top, idx, s, r2);
    }
}

/// Per-symbol state, so generated prices behave like a market rather than noise.
pub struct SymbolState {
    pub symbol: Symbol,
    /// Mid in price units, random-walked.
    pub mid: i64,
    /// Live bid prices, ascending. The last is the best bid.
    pub bids: Vec<i64>,
    /// Live ask prices, ascending. The first is the best ask.
    pub asks: Vec<i64>,
}

impl View for SymbolState {
    type V = QuoteView;

    open spec fn view(&self) -> QuoteView {
        QuoteView {
            symbol: self.symbol,
            mid: self.mid as int,
            bids: self.bids@,
            asks: self.asks@,
        }
    }
}

/// Whether a price is quoted.
fn quoted(side: &Vec<i64>, p: i64) -> (r: bool)
    ensures
        r == side@.contains(p),
{
    let mut i: usize = 0;
    while i < side.len()
        invariant
            i <= side@.len(),
            forall|j: int| 0 <= j < i ==> side@[j] != p,
        decreases side@.len() - i,
    {
        if side[i] == p {
            assert(side@[i as int] == p);
            return true;
        }
        i = i + 1;
    }
    false
}

/// Put a price in its place.
fn insert_price(side: &mut Vec<i64>, p: i64)
    ensures
        final(side)@ == with_price(old(side)@, p),
{
    let mut i: usize = side.len();
    assert(side@.take(i as int) =~= side@);
    while i > 0 && side[i - 1] >= p
        invariant
            i <= side@.len(),
            side@ == old(side)@,
            rank(side@.take(i as int), p) == rank(side@, p),
        decreases i,
    {
        assert(side@.take(i as int).drop_last() =~= side@.take(i - 1));
        i = i - 1;
    }
    side.insert(i, p);
}

impl SymbolState {
    pub fn best_bid(&self) -> (r: Option<i64>)
        ensures
            r == (if self.bids@.len() > 0 {
                Some(self.bids@.last())
            } else {
                None
            }),
    {
        let n: usize = self.bids.len();
        if n == 0 {
            None
        } else {
            Some(self.bids[n - 1])
        }
    }

    pub fn best_ask(&self) -> (r: Option<i64>)
        ensures
            r == (if self.asks@.len() > 0 {
                Some(self.asks@[0])
            } else {
                None
            }),
    {
        if self.asks.len() == 0 {
            None
        } else {
            Some(self.asks[0])
        }
    }

    /// The `k`-th candidate price on a side.
    fn candidate(&self, bid: bool, k: i64, Ghost(top): Ghost<int>) -> (r: i64)
        requires
            self@.sound(top),
            top <= 0x1000_0000_0000_0000,
            0 <= k < DEPTH,
        ensures
            r == (if bid {
                self@.bid_price(k as int)
            } else {
                self@.ask_price(k as int)
            }),
    {
        if bid {
            let under_mid: i64 = self.mid - TICK;
            let ceiling: i64 = match self.best_ask() {
                Some(a) => if a - TICK < under_mid {
                    a - TICK
                } else {
                    under_mid
                },
                None => under_mid,
            };
            ceiling - DEPTH as i64 * TICK + k * TICK
        } else {
            let over_mid: i64 = self.mid + TICK;
            let floor: i64 = match self.best_bid() {
                Some(b) => if b + TICK > over_mid {
                    b + TICK
                } else {
                    over_mid
                },
                None => over_mid,
            };
            floor + k * TICK
        }
    }
}

/// The whole market and the generator driving it.
pub struct Market {
    pub rng: Rng,
    pub symbols: Vec<SymbolState>,
}

impl View for Market {
    type V = MarketView;

    open spec fn view(&self) -> MarketView {
        MarketView {
            rng: self.rng.0,
            symbols: self.symbols@.map_values(|s: SymbolState| s@),
        }
    }
}

impl Market {
    fn post(&mut self, idx: usize, complete: bool, ts: i64, Ghost(top): Ghost<int>) -> (r: Option<
        PriceLevelUpdate,
    >)
        requires
            old(self)@.sound(top),
            800 <= top <= 0x1000_0000_0000_0000,
            idx < old(self)@.symbols.len(),
        ensures
            (final(self)@, r) == old(self)@.post(old(self)@.rng, idx as int, complete, ts),
    {
        let ghost before = self@;
        let ghost s = before.symbols[idx as int];
        assert(s.sound(top));
        assert(s == self.symbols@[idx as int]@);
        let bids: usize = self.symbols[idx].bids.len();
        let asks: usize = self.symbols[idx].asks.len();
        let bid: bool = if bids >= DEPTH {
            false
        } else if asks >= DEPTH {
            true
        } else {
            self.rng.below(2) == 0
        };
        let k: i64 = self.rng.below(DEPTH as u64) as i64;
        let price: i64 = self.symbols[idx].candidate(bid, k, Ghost(top));
        proof {
            lemma_prices_fit(s, k as int, top);
        }
        let refused: bool = if bid {
            price <= 0 || quoted(&self.symbols[idx].bids, price)
        } else {
            quoted(&self.symbols[idx].asks, price)
        };
        if refused {
            assert(self@.symbols =~= before.symbols);
            return None;
        }
        let size: u32 = (1 + self.rng.below(20)) as u32 * 100;
        let symbol = self.symbols[idx].symbol;
        let state = &mut self.symbols[idx];
        if bid {
            insert_price(&mut state.bids, price);
        } else {
            insert_price(&mut state.asks, price);
        }
        proof {
            lemma_posted_sound(s, bid, k as int, price, top);
        }
        let ghost after = s.posted(bid, price);
        assert(self@.symbols =~= before.symbols.update(idx as int, after));
        let u = PriceLevelUpdate {
            side: if bid {
                Side::Buy
            } else {
                Side::Sell
            },
            flags: if complete {
                1
            } else {
                0
            },
            timestamp: ts,
            symbol,
            size,
            price: Price(price),
        };
        // A level never has to be pulled in after the mid moves: every bid is
        // posted below the best ask and every ask above the best bid.
        if self.rng.chance(300) {
            let k: i64 = self.rng.below(3) as i64;
            let state = &mut self.symbols[idx];
            let moved: i64 = state.mid + (k - 1) * TICK;
            let least: i64 = 2 * TICK * DEPTH as i64;
            state.mid = if moved > least {
                moved
            } else {
                least
            };
            assert(self@.symbols =~= before.symbols.update(idx as int, after.drifted(k as int)));
        }
        Some(u)
    }

    /// One attempt at a message.
    pub(crate) fn attempt(&mut self, delete_rate: u64, ts: i64, Ghost(top): Ghost<int>) -> (r: Option<
        PriceLevelUpdate,
    >)
        requires
            old(self)@.sound(top),
            800 <= top <= 0x1000_0000_0000_0000,
        ensures
            (final(self)@, r) == old(self)@.attempt(delete_rate, ts),
            final(self)@.sound(top + 100),
            final(self)@.symbols.len() == old(self)@.symbols.len(),
    {
        let ghost before = self@;
        proof {
            law_the_market_never_crosses(before, delete_rate, ts, top);
        }
        let idx: usize = self.rng.below(self.symbols.len() as u64) as usize;
        let complete: bool = !self.rng.chance(1_000);
        let deleting: bool = self.rng.chance(delete_rate);
        let ghost s = before.symbols[idx as int];
        assert(s.sound(top));
        assert(s == self.symbols@[idx as int]@);
        if deleting {
            let from_bids: bool = self.rng.below(2) == 0;
            let n: usize = if from_bids {
                self.symbols[idx].bids.len()
            } else {
                self.symbols[idx].asks.len()
            };
            if n > 0 {
                let at: usize = self.rng.below(n as u64) as usize;
                let symbol = self.symbols[idx].symbol;
                let state = &mut self.symbols[idx];
                let price: i64 = if from_bids {
                    state.bids.remove(at)
                } else {
                    state.asks.remove(at)
                };
                assert(self@.symbols =~= before.symbols.update(
                    idx as int,
                    s.removed(from_bids, at as int),
                ));
                return Some(
                    PriceLevelUpdate {
                        side: if from_bids {
                            Side::Buy
                        } else {
                            Side::Sell
                        },
                        flags: if complete {
                            1
                        } else {
                            0
                        },
                        timestamp: ts,
                        symbol,
                        size: 0,
                        price: Price(price),
                    },
                );
            }
        }
        assert(self@.symbols =~= before.symbols);
        self.post(idx, complete, ts, Ghost(top))
    }
}

}
