//! What a generated feed is like.
use vstd::prelude::*;

use super::market::{drawn, xorshift, MarketView, QuoteView};
use super::wire::{capture_header, encoded, frame_bytes, record_bytes, segment_bytes};
use super::{
    batch, begun, generated, published, ConfigView, GenView, Sent, SESSION, START_NANOS,
};
use crate::bytes::{be16_bytes, le16_bytes};
use crate::deep::laws::written;
use crate::deep::messages::{MessageView, PriceLevelUpdate};
use crate::iextp::layout::{datagram_bytes, header_of, link, tags, Route};
use crate::iextp::recording;
use crate::iextp::segment::SegmentView;

verus! {

/// The generator shifts left by thirteen, right by seven and left by seventeen, each
/// time keeping what differs; only zero stands still.
pub proof fn law_draws_follow_the_shifts(x: u64)
    ensures
        ({
            let a = x ^ ((x * 8_192) % 0x1_0000_0000_0000_0000) as u64;
            let b = a ^ (a / 128);
            xorshift(x) == b ^ ((b * 131_072) % 0x1_0000_0000_0000_0000) as u64
        }),
        xorshift(x) == 0 <==> x == 0,
{
    assert(x << 13u64 == ((x * 8_192) % 0x1_0000_0000_0000_0000) as u64) by (bit_vector);
    let a = x ^ (x << 13u64);
    assert(a >> 7u64 == a / 128) by (bit_vector);
    let b = a ^ (a >> 7u64);
    assert(b << 17u64 == ((b * 131_072) % 0x1_0000_0000_0000_0000) as u64) by (bit_vector);
    assert(x ^ (x << 13u64) == 0 <==> x == 0) by (bit_vector);
    assert(a ^ (a >> 7u64) == 0 <==> a == 0) by (bit_vector);
    assert(b ^ (b << 17u64) == 0 <==> b == 0) by (bit_vector);
}

/// A draw is below its bound, and differs from the generator's number by a multiple of
/// it.
pub proof fn law_a_draw_is_below_its_bound(x: u64, n: u64)
    ensures
        n == 0 ==> drawn(x, n) == 0,
        n > 0 ==> drawn(x, n) < n && (xorshift(x) - drawn(x, n)) % (n as int) == 0,
{
    if n > 0 {
        let y = xorshift(x) as int;
        vstd::arithmetic::div_mod::lemma_fundamental_div_mod(y, n as int);
        vstd::arithmetic::div_mod::lemma_mod_multiples_basic(y / (n as int), n as int);
        assert(y - y % (n as int) == (y / (n as int)) * n) by (nonlinear_arith)
            requires
                y == n * (y / (n as int)) + y % (n as int),
        ;
    }
}

/// What an update does to a symbol: a delete takes a price off its side that was there,
/// anything else puts one there that was not, and nothing else on either side changes.
pub open spec fn follows(before: QuoteView, after: QuoteView, u: PriceLevelUpdate) -> bool {
    let p = u.price.0;
    &&& after.symbol == before.symbol
    &&& u.symbol == before.symbol
    &&& u.side is Buy ==> after.asks == before.asks && (u.size == 0 <==> before.bids.contains(p))
        && (forall|q: i64| #[trigger]
        after.bids.contains(q) <==> if q == p {
            u.size != 0
        } else {
            before.bids.contains(q)
        })
    &&& u.side is Sell ==> after.bids == before.bids && (u.size == 0 <==> before.asks.contains(p))
        && (forall|q: i64| #[trigger]
        after.asks.contains(q) <==> if q == p {
            u.size != 0
        } else {
            before.asks.contains(q)
        })
}

/// A posted price is within four cents of the touch and never crosses it: a bid below
/// the best ask and the mid, an ask above the best bid and the mid.
pub open spec fn near_the_touch(s: QuoteView, u: PriceLevelUpdate) -> bool {
    let p = u.price.0 as int;
    &&& u.side is Buy ==> exists|c: int| #[trigger] just_below(s, c) && (p == c - 100 || p == c
        - 200 || p == c - 300 || p == c - 400)
    &&& u.side is Sell ==> exists|c: int| #[trigger] just_above(s, c) && (p == c || p == c + 100
        || p == c + 200 || p == c + 300)
}

/// One cent below the lower of best ask and mid.
pub open spec fn just_below(s: QuoteView, c: int) -> bool {
    &&& c <= s.mid - 100
    &&& s.asks.len() > 0 ==> c <= s.asks[0] - 100
    &&& c == s.mid - 100 || (s.asks.len() > 0 && c == s.asks[0] - 100)
}

/// One cent above the higher of best bid and mid.
pub open spec fn just_above(s: QuoteView, c: int) -> bool {
    &&& c >= s.mid + 100
    &&& s.bids.len() > 0 ==> c >= s.bids.last() + 100
    &&& c == s.mid + 100 || (s.bids.len() > 0 && c == s.bids.last() + 100)
}

/// Whether an attempt is to delete: so many times in ten thousand.
pub open spec fn deletes(m: MarketView, delete_rate: u64) -> bool {
    drawn(xorshift(xorshift(m.rng)), 10_000) < delete_rate
}

/// A post is of a round lot up to twenty, on a side that has room, at a price nobody
/// quotes there yet.
proof fn lemma_post(m: MarketView, rng: u64, idx: int, complete: bool, ts: i64, top: int)
    requires
        m.sound(top),
        0 <= idx < m.symbols.len(),
        800 <= top <= 0x1000_0000_0000_0000,
    ensures
        ({
            let (after, u) = m.post(rng, idx, complete, ts);
            let s = m.symbols[idx];
            let t = after.symbols[idx];
            &&& after.symbols.len() == m.symbols.len()
            &&& forall|j: int|
                0 <= j < m.symbols.len() && j != idx ==> #[trigger] after.symbols[j]
                    == m.symbols[j]
            &&& u is None ==> after.symbols == m.symbols
            &&& u matches Some(u) ==> {
                &&& follows(s, t, u)
                &&& near_the_touch(s, u)
                &&& u.timestamp == ts
                &&& u.flags == if complete {
                    1u8
                } else {
                    0u8
                }
                &&& 100 <= u.size <= 2_000
                &&& u.size % 100 == 0
                &&& s.bids.len() >= 4 ==> u.side is Sell
                &&& s.bids.len() < 4 && s.asks.len() >= 4 ==> u.side is Buy
                &&& t.mid == s.mid || t.mid == s.mid + 100 || t.mid == s.mid - 100 || t.mid == 800
                &&& t.mid >= 800
            }
        }),
{
    let s = m.symbols[idx];
    let (after, u) = m.post(rng, idx, complete, ts);
    assert(s.sound(top));
    if let Some(u) = u {
        let forced = s.bids.len() >= 4 || s.asks.len() >= 4;
        let r1 = if forced {
            rng
        } else {
            xorshift(rng)
        };
        let k = drawn(r1, 4);
        law_a_draw_is_below_its_bound(r1, 4);
        let r2 = xorshift(r1);
        law_a_draw_is_below_its_bound(r2, 20);
        let r4 = xorshift(xorshift(r2));
        law_a_draw_is_below_its_bound(r4, 3);
        let bid = u.side is Buy;
        let p = u.price.0;
        super::market::lemma_posted(s, bid, k as int, p, top);
        if bid {
            let c = if s.asks.len() > 0 && s.asks[0] - 100 < s.mid - 100 {
                s.asks[0] - 100
            } else {
                s.mid - 100
            };
            assert(just_below(s, c));
            assert(s.bid_price(k as int) == c - 400 + k * 100);
        } else {
            let c = if s.bids.len() > 0 && s.bids.last() + 100 > s.mid + 100 {
                s.bids.last() + 100
            } else {
                s.mid + 100
            };
            assert(just_above(s, c));
            assert(s.ask_price(k as int) == c + k * 100);
        }
    }
}

/// An attempt is at one symbol, drawn; it leaves the others alone, and what it says is
/// what happened. It deletes as often as it is asked to, a level that is there; where
/// that side is empty, and otherwise, it posts a round lot near the touch. One in ten
/// is in the middle of an event.
pub proof fn law_an_attempt_says_what_happened(m: MarketView, delete_rate: u64, ts: i64, top: int)
    requires
        m.sound(top),
        800 <= top <= 0x1000_0000_0000_0000,
    ensures
        ({
            let (after, u) = m.attempt(delete_rate, ts);
            let idx = drawn(m.rng, m.symbols.len() as u64) as int;
            let s = m.symbols[idx];
            &&& 0 <= idx < m.symbols.len()
            &&& after.symbols.len() == m.symbols.len()
            &&& forall|j: int|
                0 <= j < m.symbols.len() && j != idx ==> #[trigger] after.symbols[j]
                    == m.symbols[j]
            &&& u is None ==> after.symbols == m.symbols
            &&& u matches Some(u) ==> {
                &&& follows(s, after.symbols[idx], u)
                &&& u.timestamp == ts
                &&& u.flags == if drawn(xorshift(m.rng), 10_000) < 1_000 {
                    0u8
                } else {
                    1u8
                }
                &&& u.size % 100 == 0 && u.size <= 2_000
                &&& u.size == 0 ==> deletes(m, delete_rate) && after.symbols[idx].mid == s.mid
                &&& u.size > 0 ==> near_the_touch(s, u)
            }
            &&& deletes(m, delete_rate) && s.bids.len() > 0 && s.asks.len() > 0 ==> u is Some
                && u->Some_0.size == 0
        }),
{
    let (after, u) = m.attempt(delete_rate, ts);
    let n = m.symbols.len() as u64;
    law_a_draw_is_below_its_bound(m.rng, n);
    let idx = drawn(m.rng, n) as int;
    let s = m.symbols[idx];
    assert(s.sound(top));
    let r3 = xorshift(xorshift(xorshift(m.rng)));
    let complete = !(drawn(xorshift(m.rng), 10_000) < 1_000);
    if deletes(m, delete_rate) {
        let from_bids = drawn(r3, 2) == 0;
        let side = if from_bids {
            s.bids
        } else {
            s.asks
        };
        let r4 = xorshift(r3);
        if side.len() > 0 {
            super::market::lemma_removed(s, from_bids, 0, top);
            law_a_draw_is_below_its_bound(r4, side.len() as u64);
            let at = drawn(r4, side.len() as u64) as int;
            super::market::lemma_removed(s, from_bids, at, top);
            assert(side.contains(side[at]));
            assert(after.symbols[idx] == s.removed(from_bids, at));
        } else {
            lemma_post(m, r4, idx, complete, ts, top);
        }
    } else {
        lemma_post(m, r3, idx, complete, ts, top);
    }
}

/// The generator so many draws later.
pub open spec fn later(x: u64, n: nat) -> u64
    decreases n,
{
    if n == 0 {
        x
    } else {
        xorshift(later(x, (n - 1) as nat))
    }
}

/// A post follows its draws in order: the side, unless one is full; how many cents from
/// the touch; the lots; whether the mid drifts, three times in a hundred, and where to.
/// A price that is taken, or not above zero, is passed over.
pub proof fn law_a_post_follows_its_draws(
    m: MarketView,
    rng: u64,
    idx: int,
    complete: bool,
    ts: i64,
    top: int,
)
    requires
        m.sound(top),
        0 <= idx < m.symbols.len(),
        800 <= top <= 0x1000_0000_0000_0000,
    ensures
        ({
            let (after, u) = m.post(rng, idx, complete, ts);
            let s = m.symbols[idx];
            let used: nat = if s.bids.len() >= 4 || s.asks.len() >= 4 {
                0
            } else {
                1
            };
            let buy = s.bids.len() < 4 && (s.asks.len() >= 4 || drawn(rng, 2) == 0);
            let cents = drawn(later(rng, used), 4);
            let drifts = drawn(later(rng, used + 2), 10_000) < 300;
            forall|c: int| #[trigger]
                edge(s, buy, c) ==> {
                    let p = if buy {
                        c - 400 + 100 * cents
                    } else {
                        c + 100 * cents
                    };
                    let refused = (buy && (p <= 0 || s.bids.contains(p as i64))) || (!buy
                        && s.asks.contains(p as i64));
                    &&& u is None <==> refused
                    &&& u is None ==> after.rng == later(rng, used + 1)
                    &&& u matches Some(u) ==> {
                        &&& u.side is Buy <==> buy
                        &&& u.price.0 == p
                        &&& u.size == 100 * (1 + drawn(later(rng, used + 1), 20))
                        &&& !drifts ==> after.rng == later(rng, used + 3)
                            && after.symbols[idx].mid == s.mid
                        &&& drifts ==> {
                            let mid = s.mid + 100 * (drawn(later(rng, used + 3), 3) - 1);
                            &&& after.rng == later(rng, used + 4)
                            &&& after.symbols[idx].mid == if mid < 800 {
                                800
                            } else {
                                mid
                            }
                        }
                    }
                }
        }),
{
    reveal_with_fuel(later, 6);
    let s = m.symbols[idx];
    assert(s.sound(top));
    let used: nat = if s.bids.len() >= 4 || s.asks.len() >= 4 {
        0
    } else {
        1
    };
    law_a_draw_is_below_its_bound(later(rng, used), 4);
    law_a_draw_is_below_its_bound(later(rng, used + 1), 20);
    law_a_draw_is_below_its_bound(later(rng, used + 3), 3);
}

/// Where posting starts from on a side.
pub open spec fn edge(s: QuoteView, buy: bool, c: int) -> bool {
    if buy {
        just_below(s, c)
    } else {
        just_above(s, c)
    }
}

/// An attempt follows its draws in order: the symbol; whether it is in the middle of an
/// event, once in ten; whether it deletes; if so, which side and which level of it. A
/// side with nothing on it is posted to instead.
pub proof fn law_an_attempt_follows_its_draws(m: MarketView, delete_rate: u64, ts: i64)
    ensures
        ({
            let (after, u) = m.attempt(delete_rate, ts);
            let idx = drawn(m.rng, m.symbols.len() as u64) as int;
            let s = m.symbols[idx];
            let complete = drawn(later(m.rng, 1), 10_000) >= 1_000;
            let bids = drawn(later(m.rng, 3), 2) == 0;
            let side = if bids {
                s.bids
            } else {
                s.asks
            };
            let at = drawn(later(m.rng, 4), side.len() as u64) as int;
            if drawn(later(m.rng, 2), 10_000) >= delete_rate {
                (after, u) == m.post(later(m.rng, 3), idx, complete, ts)
            } else if side.len() == 0 {
                (after, u) == m.post(later(m.rng, 4), idx, complete, ts)
            } else {
                &&& u is Some
                &&& u->Some_0.size == 0
                &&& u->Some_0.side is Buy <==> bids
                &&& u->Some_0.price.0 == side[at]
                &&& u->Some_0.symbol == s.symbol
                &&& u->Some_0.timestamp == ts
                &&& u->Some_0.flags == if complete {
                    1u8
                } else {
                    0u8
                }
                &&& after.rng == later(m.rng, 5)
            }
        }),
{
    reveal_with_fuel(later, 6);
}

/// Attempts follow each other, and what came of them goes out in that order.
pub proof fn law_attempts_follow_each_other(
    m: MarketView,
    a: nat,
    b: nat,
    delete_rate: u64,
    ts: i64,
)
    ensures
        batch(m, 0, delete_rate, ts) == (m, Seq::<PriceLevelUpdate>::empty()),
        batch(m, 1, delete_rate, ts).0 == m.attempt(delete_rate, ts).0,
        batch(m, 1, delete_rate, ts).1 == match m.attempt(delete_rate, ts).1 {
            Some(u) => seq![u],
            None => Seq::empty(),
        },
        ({
            let (mid, first) = batch(m, a, delete_rate, ts);
            let (end, rest) = batch(mid, b, delete_rate, ts);
            batch(m, a + b, delete_rate, ts) == (end, first + rest)
        }),
    decreases b,
{
    reveal_with_fuel(batch, 2);
    assert(batch(m, 1, delete_rate, ts).1 =~= match m.attempt(delete_rate, ts).1 {
        Some(u) => seq![u],
        None => Seq::empty(),
    });
    let (mid, first) = batch(m, a, delete_rate, ts);
    if b == 0 {
        assert(first + Seq::<PriceLevelUpdate>::empty() =~= first);
    } else {
        law_attempts_follow_each_other(m, a, (b - 1) as nat, delete_rate, ts);
        let (end, rest) = batch(mid, b, delete_rate, ts);
        assert(batch(m, a + b, delete_rate, ts).1 =~= first + rest);
    }
}

/// A step makes one to four attempts, as drawn, and what came of them is published in
/// one segment; if nothing did, nothing is sent and no number is used.
pub proof fn law_a_step_makes_one_to_four_attempts(cfg: ConfigView, n: nat)
    ensures
        generated(cfg, 0) == begun(cfg),
        ({
            let g = generated(cfg, n);
            let next = generated(cfg, n + 1);
            let opened = MarketView { rng: later(g.market.rng, 1), ..g.market };
            let tries = (1 + drawn(g.market.rng, 4)) as nat;
            let (m, us) = batch(opened, tries, cfg.delete_rate, g.ts_nanos as i64);
            &&& 1 <= tries <= 4
            &&& us.len() > 0 ==> next == published(g, m, us, cfg)
            &&& us.len() == 0 ==> {
                &&& next.market == m
                &&& next.packets == g.packets
                &&& next.sequence == g.sequence
                &&& next.ts_nanos == g.ts_nanos
                &&& next.published == g.published
                &&& next.emitted == g.emitted
                &&& next.gaps == g.gaps
                &&& next.duplicates == g.duplicates
            }
        }),
{
    reveal_with_fuel(later, 2);
    law_a_draw_is_below_its_bound(generated(cfg, n).market.rng, 4);
}

/// A segment is dropped so many times in ten thousand, and one that is not is doubled so
/// many. Dropped or not it uses up its numbers; each frame takes a microsecond.
pub proof fn law_a_segment_is_dropped_or_doubled_as_drawn(
    g: GenView,
    m: MarketView,
    us: Seq<PriceLevelUpdate>,
    cfg: ConfigView,
)
    ensures
        ({
            let next = published(g, m, us, cfg);
            let dropped = drawn(m.rng, 10_000) < cfg.gap_rate;
            let doubled = !dropped && drawn(xorshift(m.rng), 10_000) < cfg.duplicate_rate;
            let once = Sent { ts_nanos: g.ts_nanos, first: g.sequence, updates: us };
            let again = Sent { ts_nanos: g.ts_nanos + 1_000, first: g.sequence, updates: us };
            &&& next.market.symbols == m.symbols
            &&& next.market.rng == if dropped {
                xorshift(m.rng)
            } else {
                xorshift(xorshift(m.rng))
            }
            &&& next.sequence == g.sequence + us.len()
            &&& next.published == g.published + us.len()
            &&& dropped ==> next.packets == g.packets && next.gaps == g.gaps + 1 && next.emitted
                == g.emitted && next.duplicates == g.duplicates && next.ts_nanos == g.ts_nanos
                + 1_000
            &&& !dropped ==> next.gaps == g.gaps && next.emitted == g.emitted + 1
            &&& !dropped && !doubled ==> next.packets == g.packets.push(once) && next.duplicates
                == g.duplicates && next.ts_nanos == g.ts_nanos + 1_000
            &&& doubled ==> next.packets == g.packets.push(once).push(again) && next.duplicates
                == g.duplicates + 1 && next.ts_nanos == g.ts_nanos + 2_000
        }),
{
}

/// Updates made in one go carry the time they were made at.
proof fn lemma_batch_stamps(m: MarketView, n: nat, delete_rate: u64, ts: i64)
    ensures
        batch(m, n, delete_rate, ts).1.len() <= n,
        forall|i: int|
            0 <= i < batch(m, n, delete_rate, ts).1.len() ==> (#[trigger] batch(
                m,
                n,
                delete_rate,
                ts,
            ).1[i]).timestamp == ts,
    decreases n,
{
    if n > 0 {
        lemma_batch_stamps(m, (n - 1) as nat, delete_rate, ts);
    }
}

/// A sent segment: one to four updates, all made when it was first sent, which is now or
/// a microsecond ago.
pub open spec fn fresh_segment(p: Sent) -> bool {
    &&& 1 <= p.updates.len() <= 4
    &&& p.first >= 1
    &&& exists|ts: int|
        #![trigger made_at(p.updates, ts)]
        made_at(p.updates, ts) && (ts == p.ts_nanos || ts == p.ts_nanos - 1_000)
}

pub open spec fn made_at(us: Seq<PriceLevelUpdate>, ts: int) -> bool {
    forall|i: int| 0 <= i < us.len() ==> (#[trigger] us[i]).timestamp == ts
}

/// A capture's figures agree: as many numbers are used up as updates were published, as
/// many frames are there as segments were sent once or again, and each of them, and each
/// that was dropped, took a microsecond.
pub proof fn law_the_figures_of_a_capture_agree(cfg: ConfigView, n: nat)
    requires
        n <= 0x10_0000_0000,
    ensures
        ({
            let g = generated(cfg, n);
            &&& g.sequence == 1 + g.published
            &&& g.packets.len() == g.emitted + g.duplicates
            &&& g.ts_nanos == 1_528_371_010_000_000_000 + 1_000 * (g.emitted + g.gaps
                + g.duplicates)
            &&& g.emitted + g.gaps <= n
            &&& 0 <= g.duplicates <= g.emitted
            &&& 0 <= g.gaps
            &&& g.published >= g.emitted + g.gaps
            &&& g.published <= 4 * (g.emitted + g.gaps)
            &&& forall|i: int| 0 <= i < g.packets.len() ==> fresh_segment(#[trigger] g.packets[i])
        }),
    decreases n,
{
    if n > 0 {
        let before = generated(cfg, (n - 1) as nat);
        law_the_figures_of_a_capture_agree(cfg, (n - 1) as nat);
        let g = generated(cfg, n);
        law_a_draw_is_below_its_bound(before.market.rng, 4);
        let count = (1 + drawn(before.market.rng, 4)) as nat;
        let opened = MarketView { rng: xorshift(before.market.rng), ..before.market };
        let ts = before.ts_nanos as i64;
        assert(ts == before.ts_nanos);
        lemma_batch_stamps(opened, count, cfg.delete_rate, ts);
        let (m, us) = batch(opened, count, cfg.delete_rate, ts);
        if us.len() > 0 {
            law_a_segment_is_dropped_or_doubled_as_drawn(before, m, us, cfg);
            assert(made_at(us, before.ts_nanos));
            assert forall|i: int| 0 <= i < g.packets.len() implies fresh_segment(
                #[trigger] g.packets[i],
            ) by {
                if i < before.packets.len() {
                    assert(g.packets[i] == before.packets[i]);
                } else {
                    assert(g.packets[i].updates == us);
                    assert(made_at(g.packets[i].updates, before.ts_nanos));
                }
            }
        }
    }
}

/// Nothing is quoted at the opening, and mids are spread over a range: each 37 dollars
/// above the one before, starting over once nine hundred are passed.
pub proof fn law_mids_are_spread(cfg: ConfigView, i: int)
    requires
        0 <= i < cfg.symbols.len(),
    ensures
        ({
            let s = begun(cfg).market.symbols[i];
            &&& begun(cfg).market.symbols.len() == cfg.symbols.len()
            &&& s.symbol == cfg.symbols[i]
            &&& 100_000 <= s.mid < 9_100_000
            &&& (s.mid - 100_000 - 370_000 * i) % 9_000_000 == 0
            &&& s.bids.len() == 0
            &&& s.asks.len() == 0
            &&& begun(cfg).sequence == 1
            &&& begun(cfg).published == 0
            &&& begun(cfg).market.rng % 2 == 1
            &&& begun(cfg).market.rng == cfg.seed || begun(cfg).market.rng == cfg.seed + 1
        }),
{
    let seed = cfg.seed;
    assert((seed | 1) % 2 == 1 && (seed | 1 == seed || seed | 1 == seed + 1)) by (bit_vector);
}

/// An update is generated as the message that reads back as it.
pub proof fn law_updates_are_written_as_messages(u: PriceLevelUpdate)
    ensures
        encoded(u) == written(MessageView::PriceLevel(u)),
{
    assert(encoded(u) =~= written(MessageView::PriceLevel(u)));
}

/// A generated segment is a first-version DEEP segment on channel one.
pub proof fn law_segments_are_written_as_laid_out(
    session: u32,
    first: i64,
    count: u16,
    body: Seq<u8>,
)
    requires
        body.len() <= 0xffff,
    ensures
        ({
            let s = SegmentView {
                version: 1,
                protocol: 0x8004,
                channel: 1,
                session,
                message_count: count,
                stream_offset: 0,
                first_sequence: first,
                send_time: 0,
                block: body,
            };
            segment_bytes(session, first as int, count as int, body) == header_of(s, 0) + body
        }),
{
}

/// A generated frame is tagged, goes from 10.0.0.1 to 233.215.21.4, port 10378 to port
/// 10378, unfragmented and without checksums.
pub proof fn law_frames_are_written_as_laid_out(payload: Seq<u8>)
    requires
        payload.len() <= 0xffff - 28,
    ensures
        ({
            let addresses = seq![
                0x01u8, 0x00, 0x5e, 0x57, 0x15, 0x04, 0x00, 0x1e, 0x67, 0xf2, 0x62, 0x24,
            ];
            let r = Route {
                version: 4,
                before: seq![0u8] + be16_bytes((28 + payload.len()) as int) + seq![0u8, 0],
                flags: 0,
                offset: 0,
                ttl: 64,
                protocol: 17,
                checksum: seq![0u8, 0],
                src: seq![10u8, 0, 0, 1],
                dst: seq![233u8, 215, 21, 4],
                options: Seq::empty(),
            };
            frame_bytes(payload) == link(addresses, seq![(0x03u8, 0xf5u8)], 0x0800) + (r.bytes()
                + datagram_bytes(10378, 10378, seq![0u8, 0], payload))
        }),
{
    let addresses = seq![
        0x01u8, 0x00, 0x5e, 0x57, 0x15, 0x04, 0x00, 0x1e, 0x67, 0xf2, 0x62, 0x24,
    ];
    let r = Route {
        version: 4,
        before: seq![0u8] + be16_bytes((28 + payload.len()) as int) + seq![0u8, 0],
        flags: 0,
        offset: 0,
        ttl: 64,
        protocol: 17,
        checksum: seq![0u8, 0],
        src: seq![10u8, 0, 0, 1],
        dst: seq![233u8, 215, 21, 4],
        options: Seq::empty(),
    };
    let tcis = seq![(0x03u8, 0xf5u8)];
    assert(tcis.drop_first() =~= Seq::empty());
    assert(tags(tcis.drop_first()) =~= Seq::empty());
    assert(tags(tcis) =~= seq![0x81u8, 0x00, 0x03, 0xf5]);
    let l = link(addresses, tcis, 0x0800);
    assert(be16_bytes(0x0800) =~= seq![0x08u8, 0x00]);
    assert(l =~= super::wire::link_header());
    assert(r.bytes() =~= super::wire::ip_header(payload.len() as int)) by {
        assert(be16_bytes(0) =~= seq![0u8, 0]);
    }
    assert(datagram_bytes(10378, 10378, seq![0u8, 0], payload) =~= super::wire::udp_header(
        payload.len() as int,
    ) + payload);
    assert(frame_bytes(payload) =~= l + (r.bytes() + datagram_bytes(
        10378,
        10378,
        seq![0u8, 0],
        payload,
    )));
}

/// A generated capture is a little-endian one of Ethernet frames in microseconds, whole
/// frames kept.
pub proof fn law_captures_are_written_as_laid_out(ts_nanos: int, frame: Seq<u8>)
    requires
        0 <= ts_nanos < 0x1_0000_0000 * 1_000_000_000,
        frame.len() <= u32::MAX,
    ensures
        capture_header() == recording::file_header(
            true,
            false,
            seq![2u8, 0, 4, 0, 0, 0, 0, 0, 0, 0, 0, 0],
            65_535,
            1,
        ),
        record_bytes(ts_nanos, frame) == recording::record_bytes(
            recording::Recorded {
                sec: (ts_nanos / 1_000_000_000) as u32,
                frac: (ts_nanos % 1_000_000_000 / 1_000) as u32,
                data: frame,
                orig_len: frame.len() as u32,
            },
            true,
        ),
        SESSION == 0x4400_0001,
        START_NANOS == 1_528_371_010_000_000_000,
{
    let v = seq![2u8, 0, 4, 0, 0, 0, 0, 0, 0, 0, 0, 0];
    assert(le16_bytes(2) =~= seq![2u8, 0]);
    assert(le16_bytes(4) =~= seq![4u8, 0]);
    assert(capture_header() =~= recording::file_header(true, false, v, 65_535, 1));
}

}
