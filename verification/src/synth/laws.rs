//! What a receiver makes of a generated capture.
//!
//! A receiver reads the file, unwraps each packet, puts the segments in sequence
//! and applies their messages to a book: the same layers, one after the other,
//! that read a capture from the exchange.
use vstd::prelude::*;

use crate::book::{BookView, SymbolView, updated_by};
use crate::deep::messages::{decoded, PriceLevelUpdate};
use crate::deep::symbol::lemma_key_identifies;
use crate::iextp::capture::packets_in;
use crate::iextp::carried;
use crate::iextp::pcap::PacketView;
use crate::iextp::sequencer::{Action, SeqView};
use crate::synth::market::{
    drawn, law_the_market_never_crosses, lemma_posted, lemma_removed, xorshift, MarketView,
    QuoteView, DEPTH, WHOLE,
};
use crate::synth::wire::{
    block, encoded, law_blocks_read_back, law_captures_read_back, law_frames_read_back,
    law_segments_read_back, law_updates_read_back, lemma_block_len, read_back, recordable,
    segment_bytes, Stamped,
};
use crate::synth::{
    batch, begun, ceiling, file, generated, in_range, lemma_batch, lemma_begun_sound,
    lemma_sound_grows, published, stamped, stepped, usual_symbols, ConfigView, GenView, Sent,
    MAX_SEGMENTS, SESSION,
};
use crate::tree::{greatest, least, lemma_ends_exist};

verus! {

/// What a receiver has made of what it has read.
#[verifier::ext_equal]
pub struct Heard {
    pub seq: SeqView,
    pub messages: int,
    pub book: BookView,
}

/// A receiver that has read nothing.
pub open spec fn silent() -> Heard {
    Heard { seq: SeqView::fresh(1024), messages: 0, book: BookView::empty() }
}

/// A book after message bodies, the ones that decode.
pub open spec fn read_into(book: BookView, bodies: Seq<Seq<u8>>) -> BookView
    decreases bodies.len(),
{
    if bodies.len() == 0 {
        book
    } else {
        let before = read_into(book, bodies.drop_last());
        match decoded(bodies.last()) {
            Ok(m) => before.applied(m),
            Err(_) => before,
        }
    }
}

/// A receiver after one more packet.
pub open spec fn hear(h: Heard, data: Seq<u8>) -> Heard {
    match carried(data) {
        None => h,
        Some((_, s)) => {
            let (seq, action) = h.seq.observed(s.session, s.first_sequence, s.message_count);
            match action {
                Action::Deliver => Heard {
                    seq,
                    messages: h.messages + s.bodies().len(),
                    book: read_into(h.book, s.bodies()),
                },
                Action::SessionReset => Heard {
                    seq,
                    messages: h.messages + s.bodies().len(),
                    book: read_into(h.book.cleared(), s.bodies()),
                },
                _ => Heard { seq, ..h },
            }
        },
    }
}

/// A receiver after every packet of a capture.
pub open spec fn hear_all(packets: Seq<PacketView>) -> Heard
    decreases packets.len(),
{
    if packets.len() == 0 {
        silent()
    } else {
        hear(hear_all(packets.drop_last()), packets.last().data)
    }
}

/// A receiver after one more sent segment, without going through its bytes.
spec fn hear_sent(h: Heard, p: Sent) -> Heard {
    let (seq, action) = h.seq.observed(SESSION, p.first as i64, p.updates.len() as u16);
    match action {
        Action::Deliver => Heard {
            seq,
            messages: h.messages + p.updates.len(),
            book: updated_by(h.book, p.updates),
        },
        Action::SessionReset => Heard {
            seq,
            messages: h.messages + p.updates.len(),
            book: updated_by(h.book.cleared(), p.updates),
        },
        _ => Heard { seq, ..h },
    }
}

spec fn hear_all_sent(ps: Seq<Sent>) -> Heard
    decreases ps.len(),
{
    if ps.len() == 0 {
        silent()
    } else {
        hear_sent(hear_all_sent(ps.drop_last()), ps.last())
    }
}

/// A sent segment is small and its numbers fit.
spec fn sendable(p: Sent) -> bool {
    &&& p.updates.len() <= 4
    &&& i64::MIN <= p.first <= i64::MAX
    &&& 0 <= p.ts_nanos < 0x1_0000_0000 * 1_000_000_000
}

proof fn lemma_read_into(book: BookView, us: Seq<PriceLevelUpdate>)
    ensures
        read_into(book, us.map_values(|u: PriceLevelUpdate| encoded(u))) == updated_by(book, us),
    decreases us.len(),
{
    let bs = us.map_values(|u: PriceLevelUpdate| encoded(u));
    if us.len() > 0 {
        lemma_read_into(book, us.drop_last());
        assert(bs.drop_last() =~= us.drop_last().map_values(|u: PriceLevelUpdate| encoded(u)));
        law_updates_read_back(us.last());
        assert(bs.last() == encoded(us.last()));
    }
}

/// What a sent segment's bytes carry is what was sent.
proof fn lemma_sent_is_carried(p: Sent)
    requires
        sendable(p),
    ensures
        stamped(p).frame.len() <= 0xffff_ffff,
        carried(stamped(p).frame) matches Some((_, s)) && {
            &&& s.session == SESSION
            &&& s.first_sequence == p.first
            &&& s.message_count == p.updates.len()
            &&& s.bodies() == p.updates.map_values(|u: PriceLevelUpdate| encoded(u))
        },
{
    let us = p.updates;
    let body = block(us);
    lemma_block_len(us);
    law_segments_read_back(SESSION, p.first as i64, us.len() as u16, body);
    law_frames_read_back(segment_bytes(SESSION, p.first, us.len() as int, body));
    law_blocks_read_back(us);
}

/// Hearing a sent segment through its bytes is hearing what was sent.
proof fn lemma_hear_sent(h: Heard, p: Sent)
    requires
        sendable(p),
    ensures
        hear(h, stamped(p).frame) == hear_sent(h, p),
        stamped(p).frame.len() <= 0xffff_ffff,
{
    lemma_sent_is_carried(p);
    lemma_read_into(h.book, p.updates);
    lemma_read_into(h.book.cleared(), p.updates);
}

proof fn lemma_hear_all_sent(ps: Seq<Sent>)
    requires
        forall|i: int| 0 <= i < ps.len() ==> sendable(#[trigger] ps[i]),
    ensures
        hear_all(ps.map_values(|p: Sent| read_back(stamped(p)))) == hear_all_sent(ps),
        recordable(ps.map_values(|p: Sent| stamped(p))),
    decreases ps.len(),
{
    let views = ps.map_values(|p: Sent| read_back(stamped(p)));
    let frames = ps.map_values(|p: Sent| stamped(p));
    if ps.len() > 0 {
        let front = ps.drop_last();
        lemma_hear_all_sent(front);
        assert(views.drop_last() =~= front.map_values(|p: Sent| read_back(stamped(p))));
        lemma_hear_sent(hear_all_sent(front), ps.last());
        assert(views.last().data == stamped(ps.last()).frame);
        let front_frames = front.map_values(|p: Sent| stamped(p));
        assert forall|i: int| 0 <= i < frames.len() implies (#[trigger] frames[i]).frame.len()
            <= 0xffff_ffff && 0 <= frames[i].ts_nanos < 0x1_0000_0000 * 1_000_000_000 by {
            if i < front.len() {
                assert(front_frames[i] == frames[i]);
            } else {
                assert(sendable(ps[i]));
            }
        }
    }
}

/// A book side holds exactly the prices quoted.
spec fn mirrors_side(m: Map<i64, u32>, s: Seq<i64>) -> bool {
    &&& m.dom().finite()
    &&& forall|k: i64| #[trigger] m.contains_key(k) <==> s.contains(k)
}

/// A book's view of a symbol holds exactly the prices quoted.
spec fn mirrors_symbol(v: SymbolView, s: QuoteView) -> bool {
    mirrors_side(v.bids, s.bids) && mirrors_side(v.asks, s.asks)
}

/// A book holds exactly what the market quotes.
spec fn mirrors(book: BookView, m: MarketView) -> bool {
    forall|i: int|
        0 <= i < m.symbols.len() ==> mirrors_symbol(
            book.symbol((#[trigger] m.symbols[i]).symbol.key()),
            m.symbols[i],
        )
}

/// Two markets quote the same symbols.
spec fn same_names(a: MarketView, b: MarketView) -> bool {
    &&& a.symbols.len() == b.symbols.len()
    &&& forall|i: int|
        0 <= i < a.symbols.len() ==> (#[trigger] a.symbols[i]).symbol == b.symbols[i].symbol
}

/// No symbol is quoted twice.
spec fn distinct(m: MarketView) -> bool {
    forall|i: int, j: int|
        0 <= i < j < m.symbols.len() ==> (#[trigger] m.symbols[i]).symbol != (
        #[trigger] m.symbols[j]).symbol
}

/// A book has not been seen crossed or locked.
pub open spec fn uncrossed(book: BookView) -> bool {
    &&& book.stats.crossed_when_stable == 0
    &&& book.stats.crossed_mid_event == 0
    &&& book.stats.locked_when_stable == 0
}

/// A book that mirrors a sound symbol is neither crossed nor locked.
proof fn lemma_not_crossed(v: SymbolView, s: QuoteView, top: int)
    requires
        mirrors_symbol(v, s),
        s.sound(top),
    ensures
        !v.crossed(),
        !v.locked(),
{
    if !v.bids.dom().is_empty() && !v.asks.dom().is_empty() {
        lemma_ends_exist(v.bids);
        lemma_ends_exist(v.asks);
        let b = greatest(v.bids);
        let a = least(v.asks);
        assert(s.bids.contains(b) && s.asks.contains(a));
        let i = choose|i: int| 0 <= i < s.bids.len() && s.bids[i] == b;
        let j = choose|j: int| 0 <= j < s.asks.len() && s.asks[j] == a;
        assert(s.bids[i] < s.asks[j]);
    }
}

/// Replacing one symbol's quotes as an update says keeps the book a mirror.
proof fn lemma_update_mirrors(
    book: BookView,
    m: MarketView,
    rng: u64,
    idx: int,
    s: QuoteView,
    u: PriceLevelUpdate,
    top: int,
)
    requires
        mirrors(book, m),
        distinct(m),
        uncrossed(book),
        0 <= idx < m.symbols.len(),
        s.symbol == m.symbols[idx].symbol,
        u.symbol == s.symbol,
        s.sound(top),
        mirrors_symbol(book.symbol(u.symbol.key()).updated(u), s),
    ensures
        mirrors(book.updated(u), m.with(rng, idx, s)),
        same_names(m, m.with(rng, idx, s)),
        distinct(m.with(rng, idx, s)),
        uncrossed(book.updated(u)),
{
    let next = m.with(rng, idx, s);
    let after = book.updated(u);
    assert forall|i: int| 0 <= i < next.symbols.len() implies mirrors_symbol(
        after.symbol((#[trigger] next.symbols[i]).symbol.key()),
        next.symbols[i],
    ) by {
        if i != idx {
            if i < idx {
                assert(m.symbols[i].symbol != m.symbols[idx].symbol);
            } else {
                assert(m.symbols[idx].symbol != m.symbols[i].symbol);
            }
            lemma_key_identifies(m.symbols[i].symbol, u.symbol);
            assert(mirrors_symbol(book.symbol(m.symbols[i].symbol.key()), m.symbols[i]));
        }
    }
    assert forall|i: int, j: int| 0 <= i < j < next.symbols.len() implies (
    #[trigger] next.symbols[i]).symbol != (#[trigger] next.symbols[j]).symbol by {
        assert(m.symbols[i].symbol != m.symbols[j].symbol);
    }
    lemma_not_crossed(book.symbol(u.symbol.key()).updated(u), s, top);
}

/// Quotes that differ only in the mid mirror the same book.
proof fn lemma_attempt_mirrors(
    book: BookView,
    m: MarketView,
    delete_rate: u64,
    ts: i64,
    top: int,
)
    requires
        m.sound(top),
        800 <= top <= 0x1000_0000_0000_0000,
        mirrors(book, m),
        distinct(m),
        uncrossed(book),
    ensures
        ({
            let (next, u) = m.attempt(delete_rate, ts);
            let after = match u {
                Some(u) => book.updated(u),
                None => book,
            };
            &&& mirrors(after, next)
            &&& same_names(m, next)
            &&& distinct(next)
            &&& uncrossed(after)
        }),
{
    law_the_market_never_crosses(m, delete_rate, ts, top);
    let idx = drawn(m.rng, m.symbols.len() as u64) as int;
    let r1 = xorshift(m.rng);
    let complete = !(drawn(r1, WHOLE) < 1_000);
    let r2 = xorshift(r1);
    let r3 = xorshift(r2);
    let s = m.symbols[idx];
    assert(s.sound(top));
    assert(mirrors_symbol(book.symbol(s.symbol.key()), s));
    if drawn(r2, WHOLE) < delete_rate {
        let from_bids = drawn(r3, 2) == 0;
        let side = if from_bids {
            s.bids
        } else {
            s.asks
        };
        let r4 = xorshift(r3);
        if side.len() > 0 {
            let at = drawn(r4, side.len() as u64) as int;
            lemma_removed(s, from_bids, at, top);
            let after = s.removed(from_bids, at);
            let u = m.attempt(delete_rate, ts).1->Some_0;
            assert(mirrors_symbol(book.symbol(u.symbol.key()).updated(u), after));
            lemma_update_mirrors(book, m, xorshift(r4), idx, after, u, top);
        } else {
            lemma_post_mirrors(book, m, r4, idx, complete, ts, top);
        }
    } else {
        lemma_post_mirrors(book, m, r3, idx, complete, ts, top);
    }
}

proof fn lemma_post_mirrors(
    book: BookView,
    m: MarketView,
    rng: u64,
    idx: int,
    complete: bool,
    ts: i64,
    top: int,
)
    requires
        m.sound(top),
        800 <= top <= 0x1000_0000_0000_0000,
        mirrors(book, m),
        distinct(m),
        uncrossed(book),
        0 <= idx < m.symbols.len(),
    ensures
        ({
            let (next, u) = m.post(rng, idx, complete, ts);
            let after = match u {
                Some(u) => book.updated(u),
                None => book,
            };
            &&& mirrors(after, next)
            &&& same_names(m, next)
            &&& distinct(next)
            &&& uncrossed(after)
        }),
{
    let s = m.symbols[idx];
    assert(s.sound(top));
    assert(mirrors_symbol(book.symbol(s.symbol.key()), s));
    let forced = s.bids.len() >= DEPTH || s.asks.len() >= DEPTH;
    let bid = if s.bids.len() >= DEPTH {
        false
    } else if s.asks.len() >= DEPTH {
        true
    } else {
        drawn(rng, 2) == 0
    };
    let r1 = if forced {
        rng
    } else {
        xorshift(rng)
    };
    let k = drawn(r1, DEPTH as u64) as int;
    let r2 = xorshift(r1);
    match m.post(rng, idx, complete, ts).1 {
        None => {},
        Some(u) => {
            let p = u.price.0;
            lemma_posted(s, bid, k, p, top);
            let after = s.posted(bid, p);
            assert(u.size > 0);
            let before = book.symbol(u.symbol.key());
            assert(mirrors_symbol(before.updated(u), after));
            let r4 = xorshift(xorshift(r2));
            let drifted = after.drifted(drawn(r4, 3) as int);
            assert(mirrors_symbol(before.updated(u), drifted));
            lemma_update_mirrors(book, m, xorshift(r4), idx, drifted, u, top + 100);
            lemma_update_mirrors(book, m, r4, idx, after, u, top);
        },
    }
}

/// A batch keeps the book a mirror of the market.
proof fn lemma_batch_mirrors(
    book: BookView,
    m: MarketView,
    n: nat,
    delete_rate: u64,
    ts: i64,
    steps: int,
)
    requires
        m.sound(ceiling(steps)),
        0 <= steps,
        steps + n <= 0x1_0000_0000_0000,
        mirrors(book, m),
        distinct(m),
        uncrossed(book),
    ensures
        ({
            let (next, us) = batch(m, n, delete_rate, ts);
            &&& mirrors(updated_by(book, us), next)
            &&& same_names(m, next)
            &&& distinct(next)
            &&& uncrossed(updated_by(book, us))
        }),
    decreases n,
{
    if n > 0 {
        lemma_batch_mirrors(book, m, (n - 1) as nat, delete_rate, ts, steps);
        lemma_batch(m, (n - 1) as nat, delete_rate, ts, steps);
        let (before, us) = batch(m, (n - 1) as nat, delete_rate, ts);
        lemma_attempt_mirrors(
            updated_by(book, us),
            before,
            delete_rate,
            ts,
            ceiling(steps + n - 1),
        );
        let (after, u) = before.attempt(delete_rate, ts);
        match u {
            Some(u) => {
                assert(us.push(u).drop_last() =~= us);
            },
            None => {},
        }
        assert(same_names(m, after)) by {
            assert forall|i: int| 0 <= i < m.symbols.len() implies (#[trigger] m.symbols[i]).symbol
                == after.symbols[i].symbol by {
                assert(m.symbols[i].symbol == before.symbols[i].symbol);
                assert(before.symbols[i].symbol == after.symbols[i].symbol);
            }
        }
    }
}

/// A receiver that has kept up with a generator that has dropped nothing.
spec fn in_tune(g: GenView, h: Heard) -> bool {
    &&& h.messages == g.published
    &&& h.seq.held == Map::<i64, u16>::empty()
    &&& h.seq.stats.delivered == g.emitted
    &&& h.seq.stats.duplicates == g.duplicates
    &&& h.seq.stats.buffered == 0
    &&& h.seq.stats.gaps_opened == 0
    &&& h.seq.stats.messages_lost == 0
    &&& h.seq.stats.session_resets == 0
    &&& if g.packets.len() == 0 {
        h == silent() && g.sequence == 1 && g.published == 0
    } else {
        h.seq.session == Some(SESSION) && h.seq.expected == g.sequence
    }
}

/// Everything that holds after `n` segments with nothing dropped.
spec fn kept_up(g: GenView, n: int) -> bool {
    let h = hear_all_sent(g.packets);
    &&& in_range(g, n)
    &&& g.market.sound(ceiling(4 * n))
    &&& distinct(g.market)
    &&& forall|i: int| 0 <= i < g.packets.len() ==> sendable(#[trigger] g.packets[i])
    &&& g.gaps == 0 ==> in_tune(g, h) && mirrors(h.book, g.market) && uncrossed(h.book)
}

proof fn lemma_drained_nothing(st: SeqView)
    requires
        st.held == Map::<i64, u16>::empty(),
    ensures
        st.drained() == st,
{
    assert(!st.held.contains_key(least(st.held)));
}

/// A first copy in turn is delivered.
proof fn lemma_hear_first(g: GenView, h: Heard, p: Sent)
    requires
        in_tune(g, h),
        sendable(p),
        p.updates.len() > 0,
        p.first == g.sequence,
        p.first + p.updates.len() <= i64::MAX,
    ensures
        ({
            let next = hear_sent(h, p);
            &&& next.messages == h.messages + p.updates.len()
            &&& next.book == updated_by(h.book, p.updates)
            &&& next.seq.session == Some(SESSION)
            &&& next.seq.expected == p.first + p.updates.len()
            &&& next.seq.held == Map::<i64, u16>::empty()
            &&& next.seq.stats.delivered == h.seq.stats.delivered + 1
            &&& next.seq.stats.duplicates == h.seq.stats.duplicates
            &&& next.seq.stats.buffered == 0
            &&& next.seq.stats.gaps_opened == 0
            &&& next.seq.stats.messages_lost == 0
            &&& next.seq.stats.session_resets == 0
        }),
{
    let joined = if h.seq.session is None {
        SeqView { session: Some(SESSION), expected: p.first, ..h.seq }
    } else {
        h.seq
    };
    lemma_drained_nothing(joined.taken(p.first, p.updates.len() as int));
}

/// A second copy straight after the first is dropped.
proof fn lemma_hear_again(h: Heard, p: Sent)
    requires
        sendable(p),
        p.updates.len() > 0,
        h.seq.session == Some(SESSION),
        p.first < h.seq.expected,
    ensures
        ({
            let next = hear_sent(h, p);
            &&& next.messages == h.messages
            &&& next.book == h.book
            &&& next.seq.session == h.seq.session
            &&& next.seq.expected == h.seq.expected
            &&& next.seq.held == h.seq.held
            &&& next.seq.stats.duplicates == h.seq.stats.duplicates + 1
            &&& next.seq.stats.delivered == h.seq.stats.delivered
            &&& next.seq.stats.buffered == h.seq.stats.buffered
            &&& next.seq.stats.gaps_opened == h.seq.stats.gaps_opened
            &&& next.seq.stats.messages_lost == h.seq.stats.messages_lost
            &&& next.seq.stats.session_resets == h.seq.stats.session_resets
        }),
{
}

/// One segment more keeps the receiver in tune.
proof fn lemma_stepped_tracked(g: GenView, cfg: ConfigView, n: int)
    requires
        kept_up(g, n),
        0 <= n < MAX_SEGMENTS,
    ensures
        kept_up(stepped(g, cfg), n + 1),
{
    let count = 1 + drawn(g.market.rng, 4);
    let opened = MarketView { rng: xorshift(g.market.rng), ..g.market };
    assert(opened.sound(ceiling(4 * n)));
    let ts = g.ts_nanos as i64;
    let (m, us) = batch(opened, count as nat, cfg.delete_rate, ts);
    lemma_batch(opened, count as nat, cfg.delete_rate, ts, 4 * n);
    lemma_sound_grows(m, 4 * n + count, 4 * (n + 1));
    let h = hear_all_sent(g.packets);
    let next = stepped(g, cfg);
    assert(next.market.symbols == m.symbols);
    assert(next.market.sound(ceiling(4 * (n + 1))));
    lemma_batch_names(opened, count as nat, cfg.delete_rate, ts);
    lemma_distinct_names(g.market, m);
    assert(distinct(next.market));
    if g.gaps == 0 {
        assert(mirrors(h.book, opened));
        lemma_batch_mirrors(h.book, opened, count as nat, cfg.delete_rate, ts, 4 * n);
    }
    if us.len() > 0 {
        let first = Sent { ts_nanos: g.ts_nanos, first: g.sequence, updates: us };
        let again = Sent { ts_nanos: g.ts_nanos + 1_000, ..first };
        let once = g.packets.push(first);
        let twice = once.push(again);
        assert(sendable(first) && sendable(again));
        assert(once.drop_last() =~= g.packets);
        assert(twice.drop_last() =~= once);
        assert(hear_all_sent(once) == hear_sent(h, first));
        assert(hear_all_sent(twice) == hear_sent(hear_sent(h, first), again));
        if g.gaps == 0 {
            lemma_hear_first(g, h, first);
            lemma_hear_again(hear_sent(h, first), again);
        }
        let gap = drawn(m.rng, WHOLE) < cfg.gap_rate;
        if !gap {
            if drawn(xorshift(m.rng), WHOLE) < cfg.duplicate_rate {
                assert(next.packets == twice);
            } else {
                assert(next.packets == once);
            }
        }
    } else {
        if g.gaps == 0 {
            assert(updated_by(h.book, us) == h.book);
        }
    }
}

/// Attempts never rename a symbol.
proof fn lemma_batch_names(m: MarketView, n: nat, delete_rate: u64, ts: i64)
    requires
        m.symbols.len() > 0,
        m.symbols.len() <= u64::MAX,
    ensures
        same_names(m, batch(m, n, delete_rate, ts).0),
    decreases n,
{
    if n > 0 {
        lemma_batch_names(m, (n - 1) as nat, delete_rate, ts);
        let before = batch(m, (n - 1) as nat, delete_rate, ts).0;
        let after = before.attempt(delete_rate, ts).0;
        assert forall|i: int| 0 <= i < m.symbols.len() implies (#[trigger] m.symbols[i]).symbol
            == after.symbols[i].symbol by {
            assert(m.symbols[i].symbol == before.symbols[i].symbol);
        }
    }
}

proof fn lemma_distinct_names(a: MarketView, b: MarketView)
    requires
        same_names(a, b),
        distinct(a),
    ensures
        distinct(b),
{
    assert forall|i: int, j: int| 0 <= i < j < b.symbols.len() implies (
    #[trigger] b.symbols[i]).symbol != (#[trigger] b.symbols[j]).symbol by {
        assert(a.symbols[i].symbol != a.symbols[j].symbol);
    }
}

proof fn lemma_generated_tracked(cfg: ConfigView, n: nat)
    requires
        cfg.valid(),
        cfg.symbols.len() > 0,
        cfg.symbols.no_duplicates(),
        n <= cfg.segments,
    ensures
        kept_up(generated(cfg, n), n as int),
    decreases n,
{
    if n == 0 {
        lemma_begun_sound(cfg);
        let g = begun(cfg);
        let h = hear_all_sent(g.packets);
        assert(h == silent());
        assert forall|i: int, j: int| 0 <= i < j < g.market.symbols.len() implies (
        #[trigger] g.market.symbols[i]).symbol != (#[trigger] g.market.symbols[j]).symbol by {
            assert(cfg.symbols[i] != cfg.symbols[j]);
        }
        assert forall|i: int| 0 <= i < g.market.symbols.len() implies mirrors_symbol(
            h.book.symbol((#[trigger] g.market.symbols[i]).symbol.key()),
            g.market.symbols[i],
        ) by {
            assert(h.book.symbol(g.market.symbols[i].symbol.key()) == SymbolView::empty());
        }
    } else {
        lemma_generated_tracked(cfg, (n - 1) as nat);
        lemma_stepped_tracked(generated(cfg, (n - 1) as nat), cfg, n - 1);
    }
}

/// A batch gives at most one update for each attempt.
proof fn lemma_batch_len(m: MarketView, n: nat, delete_rate: u64, ts: i64)
    ensures
        batch(m, n, delete_rate, ts).1.len() <= n,
    decreases n,
{
    if n > 0 {
        lemma_batch_len(m, (n - 1) as nat, delete_rate, ts);
    }
}

proof fn lemma_generated_sendable(cfg: ConfigView, n: nat)
    requires
        n <= MAX_SEGMENTS,
    ensures
        in_range(generated(cfg, n), n as int),
        generated(cfg, n).packets.len() == generated(cfg, n).emitted + generated(cfg, n).duplicates,
        forall|i: int|
            0 <= i < generated(cfg, n).packets.len() ==> sendable(
                #[trigger] generated(cfg, n).packets[i],
            ),
        generated(cfg, n).gaps == 0 ==> in_tune(
            generated(cfg, n),
            hear_all_sent(generated(cfg, n).packets),
        ),
    decreases n,
{
    if n > 0 {
        lemma_generated_sendable(cfg, (n - 1) as nat);
        let g = generated(cfg, (n - 1) as nat);
        let next = stepped(g, cfg);
        let count = 1 + drawn(g.market.rng, 4);
        let opened = MarketView { rng: xorshift(g.market.rng), ..g.market };
        let (m, us) = batch(opened, count as nat, cfg.delete_rate, g.ts_nanos as i64);
        lemma_batch_len(opened, count as nat, cfg.delete_rate, g.ts_nanos as i64);
        let first = Sent { ts_nanos: g.ts_nanos, first: g.sequence, updates: us };
        let again = Sent { ts_nanos: g.ts_nanos + 1_000, ..first };
        assert(sendable(first) && sendable(again));
        let h = hear_all_sent(g.packets);
        let once = g.packets.push(first);
        let twice = once.push(again);
        assert(once.drop_last() =~= g.packets);
        assert(twice.drop_last() =~= once);
        assert(hear_all_sent(once) == hear_sent(h, first));
        assert(hear_all_sent(twice) == hear_sent(hear_sent(h, first), again));
        if g.gaps == 0 && us.len() > 0 {
            lemma_hear_first(g, h, first);
            lemma_hear_again(hear_sent(h, first), again);
        }
        if us.len() > 0 && !(drawn(m.rng, WHOLE) < cfg.gap_rate) {
            if drawn(xorshift(m.rng), WHOLE) < cfg.duplicate_rate {
                assert(next.packets == twice);
            } else {
                assert(next.packets == once);
            }
        }
        assert forall|i: int| 0 <= i < next.packets.len() implies sendable(
            #[trigger] next.packets[i],
        ) by {
            if i < g.packets.len() {
                assert(next.packets[i] == g.packets[i]);
            } else if i == g.packets.len() {
                assert(next.packets[i] == first);
            } else {
                assert(next.packets[i] == again);
            }
        }
    }
}

/// A generated capture reads back as the packets that were sent, whatever was
/// dropped or doubled.
pub proof fn law_a_capture_holds_what_was_sent(cfg: ConfigView)
    requires
        cfg.valid(),
    ensures
        ({
            let g = generated(cfg, cfg.segments);
            packets_in(file(g.packets)) == g.packets.map_values(|p: Sent| read_back(stamped(p)))
        }),
{
    let g = generated(cfg, cfg.segments);
    lemma_generated_sendable(cfg, cfg.segments);
    lemma_hear_all_sent(g.packets);
    let frames = g.packets.map_values(|p: Sent| stamped(p));
    law_captures_read_back(frames);
    let views = frames.map_values(|p: Stamped| read_back(p));
    assert(views =~= g.packets.map_values(|p: Sent| read_back(stamped(p))));
}

/// Every layer parses every packet of a capture, each message is delivered once,
/// each second copy is suppressed, and no gap is seen.
pub open spec fn heard_whole(cfg: ConfigView) -> bool {
    let g = generated(cfg, cfg.segments);
    let ps = packets_in(file(g.packets));
    let h = hear_all(ps);
    &&& ps.len() == g.emitted + g.duplicates
    &&& forall|i: int| 0 <= i < ps.len() ==> carried((#[trigger] ps[i]).data) is Some
    &&& h.messages == g.published
    &&& h.seq.stats.delivered == g.emitted
    &&& h.seq.stats.duplicates == g.duplicates
    &&& h.seq.stats.gaps_opened == 0
    &&& h.seq.stats.messages_lost == 0
    &&& h.seq.stats.session_resets == 0
}

/// A capture that dropped nothing decodes to exactly what was published.
pub proof fn law_a_clean_capture_is_heard_whole(cfg: ConfigView)
    requires
        cfg.valid(),
        generated(cfg, cfg.segments).gaps == 0,
    ensures
        heard_whole(cfg),
{
    let g = generated(cfg, cfg.segments);
    lemma_generated_sendable(cfg, cfg.segments);
    lemma_hear_all_sent(g.packets);
    law_a_capture_holds_what_was_sent(cfg);
    let ps = packets_in(file(g.packets));
    assert forall|i: int| 0 <= i < ps.len() implies carried((#[trigger] ps[i]).data) is Some by {
        assert(sendable(g.packets[i]));
        lemma_sent_is_carried(g.packets[i]);
        assert(ps[i].data == stamped(g.packets[i]).frame);
    }
}

/// A generator told to drop nothing gives a capture that is heard whole.
pub proof fn law_a_zero_gap_rate_is_heard_whole(cfg: ConfigView)
    requires
        cfg.valid(),
        cfg.gap_rate == 0,
    ensures
        generated(cfg, cfg.segments).gaps == 0,
        heard_whole(cfg),
{
    law_a_zero_gap_rate_drops_nothing(cfg, cfg.segments);
    law_a_clean_capture_is_heard_whole(cfg);
}

/// The book a clean capture builds is never crossed. Symbols must be distinct: two
/// streams of quotes under one name could cross each other.
pub proof fn law_a_clean_capture_never_crosses(cfg: ConfigView)
    requires
        cfg.valid(),
        cfg.symbols.len() > 0,
        cfg.symbols.no_duplicates(),
        generated(cfg, cfg.segments).gaps == 0,
    ensures
        ({
            let h = hear_all(packets_in(file(generated(cfg, cfg.segments).packets)));
            &&& h.book.stats.crossed_when_stable == 0
            &&& h.book.stats.crossed_mid_event == 0
        }),
{
    let g = generated(cfg, cfg.segments);
    lemma_generated_tracked(cfg, cfg.segments);
    lemma_hear_all_sent(g.packets);
    law_a_capture_holds_what_was_sent(cfg);
}

/// The usual symbols are distinct, so the law on crossed books speaks of every
/// default configuration.
pub proof fn law_usual_symbols_are_distinct()
    ensures
        usual_symbols().no_duplicates(),
        usual_symbols().len() == 8,
{
    let s = usual_symbols();
    assert forall|i: int, j: int| 0 <= i < s.len() && 0 <= j < s.len() && i != j implies s[i]
        != s[j] by {
        if s[i] == s[j] {
            assert(s[i].0@[0] == s[j].0@[0]);
            assert(s[i].0@[1] == s[j].0@[1]);
        }
    }
}

/// A generator told to drop nothing drops nothing.
pub proof fn law_a_zero_gap_rate_drops_nothing(cfg: ConfigView, n: nat)
    requires
        cfg.gap_rate == 0,
    ensures
        generated(cfg, n).gaps == 0,
    decreases n,
{
    if n > 0 {
        law_a_zero_gap_rate_drops_nothing(cfg, (n - 1) as nat);
    }
}

/// A generator told to double everything doubles every segment it emits.
pub proof fn law_a_full_duplicate_rate_doubles_everything(cfg: ConfigView, n: nat)
    requires
        cfg.duplicate_rate >= WHOLE,
    ensures
        generated(cfg, n).duplicates == generated(cfg, n).emitted,
        generated(cfg, n).packets.len() == 2 * generated(cfg, n).emitted,
    decreases n,
{
    if n > 0 {
        law_a_full_duplicate_rate_doubles_everything(cfg, (n - 1) as nat);
    }
}

/// A segment ahead of its turn is noticed: with nothing yet held, it opens a
/// gap, and is never silently passed over.
pub proof fn law_a_skipped_segment_opens_a_gap(st: SeqView, session: u32, first: i64, count: u16)
    requires
        st.session == Some(session),
        st.held.dom().is_empty(),
        count > 0,
        first > st.expected,
    ensures
        st.observed(session, first, count).1 is Buffered,
        st.observed(session, first, count).0.stats.gaps_opened == st.stats.gaps_opened + 1,
{
}

}
