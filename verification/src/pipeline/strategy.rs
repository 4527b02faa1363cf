//! The decision stage. Deliberately trivial, and deliberately not alpha.
//!
//! This exists to occupy its real place in the latency budget. The rule is
//! fixed, cheap, and stupid on purpose: when the book is stable, two-sided, and
//! the spread is wide enough, join the near side. Substituting a real signal
//! changes this file and nothing else.
use vstd::prelude::*;

use crate::book::Touch;
use crate::deep::messages::Side;
use crate::deep::price::Price;
use crate::deep::symbol::Symbol;

verus! {

/// A decision. `None` far more often than not.
#[derive(Debug, Clone, Copy, PartialEq, Eq)]
pub struct Quote {
    pub side: Side,
    pub symbol: Symbol,
    pub price: Price,
    pub shares: u32,
}

#[derive(Debug, Clone, Copy)]
pub struct Params {
    /// Minimum spread, in price units, before quoting is considered.
    pub min_spread: i64,
    pub shares: u32,
}

impl Default for Params {
    /// Two cents, a hundred shares.
    fn default() -> (r: Params)
        ensures
            r == (Params { min_spread: 200, shares: 100 }),
    {
        Params { min_spread: 200, shares: 100 }
    }
}

#[derive(Debug, Clone, Copy)]
pub struct Strategy {
    pub params: Params,
}

impl Default for Strategy {
    fn default() -> (r: Strategy)
        ensures
            r.params == (Params { min_spread: 200, shares: 100 }),
    {
        Strategy { params: Params::default() }
    }
}

/// The quote a touch calls for: join the bid of a stable, two-sided book whose
/// spread is at least the minimum.
pub open spec fn decision(params: Params, symbol: Symbol, t: Touch) -> Option<Quote> {
    match (t.bid, t.ask) {
        (Some((b, _)), Some((a, _))) => if t.stable && a.0 - b.0 >= params.min_spread {
            Some(Quote { side: Side::Buy, symbol, price: b, shares: params.shares })
        } else {
            None
        },
        _ => None,
    }
}

impl Strategy {
    pub fn new(params: Params) -> (r: Strategy)
        ensures
            r.params == params,
    {
        Strategy { params }
    }

    /// Decide whether to quote, from the touch the book just produced.
    ///
    /// Takes a [`Touch`] rather than the book, so the decision stage performs no
    /// lookup of its own.
    pub fn on_touch(&self, symbol: Symbol, t: Touch) -> (r: Option<Quote>)
        ensures
            r == decision(self.params, symbol, t),
    {
        if !t.stable {
            return None;
        }
        match (t.bid, t.ask) {
            (Some((b, _)), Some((a, _))) => {
                let spread: i128 = a.raw() as i128 - b.raw() as i128;
                if spread < self.params.min_spread as i128 {
                    return None;
                }
                Some(Quote { side: Side::Buy, symbol, price: b, shares: self.params.shares })
            },
            _ => None,
        }
    }
}

/// A quote joins the best bid: a buy, at the bid's price whatever is bid or asked
/// there, for the shares the parameters name, of the symbol that was updated. There is
/// one exactly if the book is stable, both sides are there and the ask is at least the
/// minimum spread above the bid.
pub proof fn law_a_quote_joins_the_bid(params: Params, symbol: Symbol, t: Touch)
    ensures
        decision(params, symbol, t) is Some <==> t.stable && t.bid is Some && t.ask is Some
            && t.ask->Some_0.0.0 - t.bid->Some_0.0.0 >= params.min_spread,
        decision(params, symbol, t) matches Some(q) ==> {
            &&& q.side is Buy
            &&& q.price == t.bid->Some_0.0
            &&& q.shares == params.shares
            &&& q.symbol == symbol
        },
{
}

/// Touches that differ only in their sizes are decided alike, and one that is wider by
/// a higher ask is quoted wherever the narrower one was.
pub proof fn law_sizes_do_not_decide(params: Params, symbol: Symbol, s: Touch, t: Touch)
    requires
        s.stable == t.stable,
        s.bid is Some && t.bid is Some && s.bid->Some_0.0 == t.bid->Some_0.0,
        s.ask is Some && t.ask is Some && s.ask->Some_0.0.0 <= t.ask->Some_0.0.0,
    ensures
        decision(params, symbol, s) is Some ==> decision(params, symbol, t) == decision(
            params,
            symbol,
            s,
        ),
        s.ask->Some_0.0 == t.ask->Some_0.0 ==> decision(params, symbol, s) == decision(
            params,
            symbol,
            t,
        ),
{
}

}
