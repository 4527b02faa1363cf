//! What a decoded session comes to, said of the message bodies that were heard.
//!
//! A session is heard body by body: those of every segment whose turn it was. Every
//! figure of a verdict is a count, an extreme or a listing over them.
use vstd::prelude::*;
use vstd::utf8::encode_utf8;

use super::verify::{
    judged, label, quote_of, ranks, shows, sort_key, symbol_of, texts, type_title, unread,
    QuoteText, Tally, Verdict,
};
use crate::book::BookView;
use crate::bytes::{le64_bytes, lemma_le64_round_trip};
use crate::deep::laws::{law_nothing_is_lost_in_decoding, modelled, sayable, written};
use crate::deep::messages::{decoded, MessageView};
use crate::deep::price::price_text;
use crate::deep::symbol::{lemma_key_identifies, Symbol};
use crate::iextp::carried;
use crate::iextp::pcap::PacketView;
use crate::iextp::sequencer::SeqView;
use crate::synth::laws::{hear_all, read_into};
use crate::text::{before, hex};

verus! {

/// The bodies of the segments whose turn it was, in the order they came.
pub open spec fn heard(seq: SeqView, ps: Seq<PacketView>) -> Seq<Seq<u8>>
    decreases ps.len(),
{
    if ps.len() == 0 {
        Seq::empty()
    } else {
        match carried(ps[0].data) {
            None => heard(seq, ps.drop_first()),
            Some((_, s)) => {
                let (next, action) = seq.observed(s.session, s.first_sequence, s.message_count);
                let now = if action is Deliver || action is SessionReset {
                    s.bodies()
                } else {
                    Seq::empty()
                };
                now + heard(next, ps.drop_first())
            },
        }
    }
}

/// How many bodies are of a kind.
pub open spec fn how_many(bodies: Seq<Seq<u8>>, kind: spec_fn(Seq<u8>) -> bool) -> int
    decreases bodies.len(),
{
    if bodies.len() == 0 {
        0
    } else {
        (if kind(bodies[0]) {
            1int
        } else {
            0
        }) + how_many(bodies.drop_first(), kind)
    }
}

/// Bodies that decode.
pub open spec fn sound() -> spec_fn(Seq<u8>) -> bool {
    |b: Seq<u8>| decoded(b) is Ok
}

/// Bodies that do not, though there is something in them.
pub open spec fn broken() -> spec_fn(Seq<u8>) -> bool {
    |b: Seq<u8>| b.len() > 0 && decoded(b) is Err
}

/// Bodies that decode, of one type.
pub open spec fn of_type(kind: int) -> spec_fn(Seq<u8>) -> bool {
    |b: Seq<u8>| decoded(b) is Ok && b[0] == kind
}

/// Trade reports and breaks: thirty-eight bytes under either type byte.
pub open spec fn trading() -> spec_fn(Seq<u8>) -> bool {
    |b: Seq<u8>| b.len() == 38 && (b[0] == 0x54 || b[0] == 0x42)
}

/// Price level updates of either side: thirty bytes under either type byte.
pub open spec fn quoting() -> spec_fn(Seq<u8>) -> bool {
    |b: Seq<u8>| b.len() == 30 && (b[0] == 0x38 || b[0] == 0x35)
}

/// Bodies of a type that is not modelled.
pub open spec fn strange() -> spec_fn(Seq<u8>) -> bool {
    |b: Seq<u8>| b.len() > 0 && !modelled(b[0])
}

/// A body offers shares at a price.
pub open spec fn offers(b: Seq<u8>, price: i64) -> bool {
    decoded(b) matches Ok(MessageView::PriceLevel(u)) && u.size != 0 && u.price.0 == price
}

/// A body is about a symbol.
pub open spec fn mentions(b: Seq<u8>, key: u64) -> bool {
    decoded(b) matches Ok(m) && m.symbol() is Some && m.symbol()->Some_0.key() == key
}

/// The same figures, whatever book and stream they came with.
spec fn same_figures(a: Tally, b: Tally) -> bool {
    &&& a.messages == b.messages
    &&& a.errors == b.errors
    &&& a.unknown == b.unknown
    &&& a.price_updates == b.price_updates
    &&& a.trades == b.trades
    &&& a.counts == b.counts
    &&& a.symbols == b.symbols
    &&& a.low == b.low
    &&& a.high == b.high
}

proof fn lemma_read_same(a: Tally, b: Tally, bodies: Seq<Seq<u8>>)
    requires
        same_figures(a, b),
    ensures
        same_figures(a.read_all(bodies), b.read_all(bodies)),
        a.read_all(bodies).seq == a.seq,
        a.read_all(bodies).packets == a.packets,
    decreases bodies.len(),
{
    if bodies.len() > 0 {
        lemma_read_same(a.read(bodies[0]), b.read(bodies[0]), bodies.drop_first());
    }
}

proof fn lemma_read_on(t: Tally, a: Seq<Seq<u8>>, b: Seq<Seq<u8>>)
    ensures
        t.read_all(a + b) == t.read_all(a).read_all(b),
    decreases a.len(),
{
    if a.len() == 0 {
        assert(a + b =~= b);
    } else {
        assert((a + b).drop_first() =~= a.drop_first() + b);
        lemma_read_on(t.read(a[0]), a.drop_first(), b);
    }
}

/// The figures of a session are those of the bodies heard, read one after the other.
proof fn lemma_session_is_heard(t: Tally, ps: Seq<PacketView>)
    ensures
        same_figures(t.packets(ps), t.read_all(heard(t.seq, ps))),
        t.packets(ps).packets == t.packets + ps.len(),
    decreases ps.len(),
{
    if ps.len() > 0 {
        let next = t.packet(ps[0].data);
        let rest = ps.drop_first();
        lemma_session_is_heard(next, rest);
        let counted = Tally { packets: t.packets + 1, ..t };
        match carried(ps[0].data) {
            None => {
                lemma_read_same(t, counted, heard(t.seq, rest));
            },
            Some((_, s)) => {
                let (seq, action) = t.seq.observed(s.session, s.first_sequence, s.message_count);
                let seen = Tally { seq, ..counted };
                let later = heard(seq, rest);
                let now = if action is Deliver || action is SessionReset {
                    s.bodies()
                } else {
                    Seq::empty()
                };
                lemma_read_on(t, now, later);
                lemma_read_same(seen, t, now);
                let anew = Tally { book: seen.book.cleared(), ..seen };
                lemma_read_same(anew, t, now);
                assert(t.read_all(Seq::empty()) == t);
                lemma_read_same(next, t.read_all(now), later);
            },
        }
    }
}

/// How one body moves the figures.
proof fn lemma_one_body(t: Tally, b: Seq<u8>)
    requires
        t.counts.len() == 256,
    ensures
        ({
            let r = t.read(b);
            let one = |yes: bool| if yes {
                1int
            } else {
                0
            };
            &&& r.counts.len() == 256
            &&& r.messages == t.messages + one(sound()(b))
            &&& r.errors == t.errors + one(broken()(b))
            &&& r.trades == t.trades + one(trading()(b))
            &&& r.price_updates == t.price_updates + one(quoting()(b))
            &&& r.unknown == t.unknown + one(strange()(b))
            &&& forall|k: int|
                0 <= k < 256 ==> #[trigger] r.counts[k] == t.counts[k] + one(of_type(k)(b))
        }),
{
    law_nothing_is_lost_in_decoding(b);
    if b.len() > 0 {
        crate::deep::laws::lemma_modelled(b[0]);
    }
}

proof fn lemma_figures_count(t: Tally, bodies: Seq<Seq<u8>>)
    requires
        t.counts.len() == 256,
    ensures
        ({
            let r = t.read_all(bodies);
            &&& r.counts.len() == 256
            &&& r.messages == t.messages + how_many(bodies, sound())
            &&& r.errors == t.errors + how_many(bodies, broken())
            &&& r.trades == t.trades + how_many(bodies, trading())
            &&& r.price_updates == t.price_updates + how_many(bodies, quoting())
            &&& r.unknown == t.unknown + how_many(bodies, strange())
            &&& forall|k: int|
                0 <= k < 256 ==> #[trigger] r.counts[k] == t.counts[k] + how_many(
                    bodies,
                    of_type(k),
                )
        }),
    decreases bodies.len(),
{
    if bodies.len() > 0 {
        lemma_one_body(t, bodies[0]);
        lemma_figures_count(t.read(bodies[0]), bodies.drop_first());
    }
}

proof fn lemma_figures_range(t: Tally, bodies: Seq<Seq<u8>>)
    ensures
        ({
            let r = t.read_all(bodies);
            &&& r.low <= t.low && t.high <= r.high
            &&& forall|i: int, p: i64|
                0 <= i < bodies.len() && #[trigger] offers(bodies[i], p) ==> r.low <= p <= r.high
            &&& r.low == t.low || exists|i: int|
                0 <= i < bodies.len() && offers(#[trigger] bodies[i], r.low)
            &&& r.high == t.high || exists|i: int|
                0 <= i < bodies.len() && offers(#[trigger] bodies[i], r.high)
            &&& forall|k: u64| #[trigger]
                r.symbols.contains(k) <==> t.symbols.contains(k) || exists|i: int|
                    0 <= i < bodies.len() && mentions(#[trigger] bodies[i], k)
        }),
    decreases bodies.len(),
{
    if bodies.len() > 0 {
        let rest = bodies.drop_first();
        let next = t.read(bodies[0]);
        lemma_figures_range(next, rest);
        let r = t.read_all(bodies);
        assert(r == next.read_all(rest));
        assert forall|i: int, p: i64|
            0 <= i < bodies.len() && #[trigger] offers(bodies[i], p) implies r.low <= p
            <= r.high by {
            if i > 0 {
                assert(offers(rest[i - 1], p));
            }
        }
        assert(r.low == t.low || exists|i: int|
            0 <= i < bodies.len() && offers(#[trigger] bodies[i], r.low)) by {
            if r.low == next.low {
                if next.low != t.low {
                    assert(offers(bodies[0], r.low));
                }
            } else {
                let i = choose|i: int| 0 <= i < rest.len() && offers(#[trigger] rest[i], r.low);
                assert(bodies[i + 1] == rest[i]);
            }
        }
        assert(r.high == t.high || exists|i: int|
            0 <= i < bodies.len() && offers(#[trigger] bodies[i], r.high)) by {
            if r.high == next.high {
                if next.high != t.high {
                    assert(offers(bodies[0], r.high));
                }
            } else {
                let i = choose|i: int| 0 <= i < rest.len() && offers(#[trigger] rest[i], r.high);
                assert(bodies[i + 1] == rest[i]);
            }
        }
        assert forall|k: u64| #[trigger] r.symbols.contains(k) <==> t.symbols.contains(k)
            || exists|i: int| 0 <= i < bodies.len() && mentions(#[trigger] bodies[i], k) by {
            if r.symbols.contains(k) && !next.symbols.contains(k) {
                let i = choose|i: int| 0 <= i < rest.len() && mentions(#[trigger] rest[i], k);
                assert(bodies[i + 1] == rest[i]);
            } else if next.symbols.contains(k) && !t.symbols.contains(k) {
                assert(mentions(bodies[0], k));
            }
            if exists|i: int| 0 <= i < bodies.len() && mentions(#[trigger] bodies[i], k) {
                let i = choose|i: int| 0 <= i < bodies.len() && mentions(#[trigger] bodies[i], k);
                if i > 0 {
                    assert(mentions(rest[i - 1], k));
                } else {
                    assert(next.symbols.contains(k));
                }
            }
        }
    }
}

/// Every figure of a session is a count over the bodies heard: messages are those that
/// decode, errors those that do not, trades the trade reports and breaks, price
/// updates the price level updates, unknown those of no modelled type, and each type
/// has its own count. Packets are all there were.
pub proof fn law_a_session_is_counted_by_what_was_heard(ps: Seq<PacketView>)
    ensures
        ({
            let t = Tally::start().packets(ps);
            let bodies = heard(SeqView::fresh(1024), ps);
            &&& t.packets == ps.len()
            &&& t.messages == how_many(bodies, sound())
            &&& t.errors == how_many(bodies, broken())
            &&& t.trades == how_many(bodies, trading())
            &&& t.price_updates == how_many(bodies, quoting())
            &&& t.unknown == how_many(bodies, strange())
            &&& t.counts.len() == 256
            &&& forall|k: int|
                0 <= k < 256 ==> #[trigger] t.counts[k] == how_many(bodies, of_type(k))
        }),
{
    lemma_session_is_heard(Tally::start(), ps);
    lemma_figures_count(Tally::start(), heard(SeqView::fresh(1024), ps));
}

/// The prices of a session run from the lowest to the highest at which any body heard
/// offers shares, and its symbols are those any body heard is about.
pub proof fn law_a_session_ranges_over_what_was_heard(ps: Seq<PacketView>, price: i64, key: u64)
    ensures
        ({
            let t = Tally::start().packets(ps);
            let bodies = heard(SeqView::fresh(1024), ps);
            let offered = exists|i: int, p: i64|
                0 <= i < bodies.len() && #[trigger] offers(bodies[i], p);
            &&& (exists|i: int| 0 <= i < bodies.len() && offers(#[trigger] bodies[i], price))
                ==> t.low <= price <= t.high
            &&& offered <==> t.low <= t.high
            &&& offered ==> exists|i: int|
                0 <= i < bodies.len() && offers(#[trigger] bodies[i], t.low)
            &&& offered ==> exists|i: int|
                0 <= i < bodies.len() && offers(#[trigger] bodies[i], t.high)
            &&& t.symbols.contains(key) <==> exists|i: int|
                0 <= i < bodies.len() && mentions(#[trigger] bodies[i], key)
        }),
{
    let start = Tally::start();
    let bodies = heard(SeqView::fresh(1024), ps);
    lemma_session_is_heard(start, ps);
    lemma_figures_range(start, bodies);
    let t = start.packets(ps);
    if exists|i: int, p: i64| 0 <= i < bodies.len() && #[trigger] offers(bodies[i], p) {
        let (i, p) = choose|i: int, p: i64| 0 <= i < bodies.len() && #[trigger] offers(bodies[i], p);
        if t.low == start.low {
            assert(p == t.low);
            assert(offers(bodies[i], t.low));
        }
        if t.high == start.high {
            assert(p == t.high);
            assert(offers(bodies[i], t.high));
        }
    }
}

proof fn lemma_type_counts(bodies: Seq<Seq<u8>>)
    ensures
        how_many(bodies, trading()) == how_many(bodies, of_type(0x54)) + how_many(
            bodies,
            of_type(0x42),
        ),
        how_many(bodies, quoting()) == how_many(bodies, of_type(0x38)) + how_many(
            bodies,
            of_type(0x35),
        ),
        how_many(bodies, sound()) == how_many(bodies, strange()) + how_many(bodies, trading())
            + how_many(bodies, quoting()) + how_many(bodies, of_type(0x53)) + how_many(
            bodies,
            of_type(0x44),
        ) + how_many(bodies, of_type(0x48)) + how_many(bodies, of_type(0x4f)) + how_many(
            bodies,
            of_type(0x50),
        ) + how_many(bodies, of_type(0x45)) + how_many(bodies, of_type(0x58)) + how_many(
            bodies,
            of_type(0x41),
        ),
    decreases bodies.len(),
{
    if bodies.len() > 0 {
        lemma_type_counts(bodies.drop_first());
        let b = bodies[0];
        if b.len() > 0 {
            crate::deep::laws::lemma_modelled(b[0]);
        }
    }
}

/// The trades reported are the messages counted under the two trade types, the price
/// updates those under the two price level types, and the unknown ones all that are
/// left beside the modelled types.
pub proof fn law_figures_agree_with_the_types(ps: Seq<PacketView>)
    ensures
        ({
            let t = Tally::start().packets(ps);
            &&& t.trades == t.counts[0x54] + t.counts[0x42]
            &&& t.price_updates == t.counts[0x38] + t.counts[0x35]
            &&& t.messages == t.unknown + t.trades + t.price_updates + t.counts[0x53]
                + t.counts[0x44] + t.counts[0x48] + t.counts[0x4f] + t.counts[0x50]
                + t.counts[0x45] + t.counts[0x58] + t.counts[0x41]
        }),
{
    law_a_session_is_counted_by_what_was_heard(ps);
    lemma_type_counts(heard(SeqView::fresh(1024), ps));
}

proof fn lemma_packets_last(t: Tally, ps: Seq<PacketView>)
    requires
        ps.len() > 0,
    ensures
        t.packets(ps) == t.packets(ps.drop_last()).packet(ps.last().data),
    decreases ps.len(),
{
    let next = t.packet(ps[0].data);
    if ps.len() == 1 {
        assert(ps.drop_first() =~= Seq::empty());
        assert(ps.drop_last() =~= Seq::empty());
        assert(next.packets(Seq::empty()) == next);
    } else {
        lemma_packets_last(next, ps.drop_first());
        assert(ps.drop_first().drop_last() =~= ps.drop_last().drop_first());
        assert(ps.drop_last()[0] == ps[0]);
    }
}

proof fn lemma_read_into_last(book: BookView, bodies: Seq<Seq<u8>>)
    requires
        bodies.len() > 0,
    ensures
        read_into(book, bodies) == read_into(
            read_into(book, seq![bodies[0]]),
            bodies.drop_first(),
        ),
    decreases bodies.len(),
{
    let one = seq![bodies[0]];
    assert(one.drop_last() =~= Seq::empty());
    assert(read_into(book, Seq::empty()) == book);
    if bodies.len() == 1 {
        assert(bodies =~= one);
        assert(bodies.drop_first() =~= Seq::empty());
        assert(read_into(read_into(book, one), Seq::empty()) == read_into(book, one));
    } else {
        lemma_read_into_last(book, bodies.drop_last());
        assert(bodies.drop_last().drop_first() =~= bodies.drop_first().drop_last());
        assert(bodies.drop_first().last() == bodies.last());
    }
}

proof fn lemma_book_read(t: Tally, bodies: Seq<Seq<u8>>)
    ensures
        t.read_all(bodies).book.symbols == read_into(t.book, bodies).symbols,
        same_but_trades(t.read_all(bodies).book, read_into(t.book, bodies)),
    decreases bodies.len(),
{
    if bodies.len() > 0 {
        let next = t.read(bodies[0]);
        let one = seq![bodies[0]];
        lemma_read_into_last(t.book, bodies);
        assert(one.drop_last() =~= Seq::empty());
        assert(read_into(t.book, Seq::empty()) == t.book);
        lemma_book_read(next, bodies.drop_first());
        lemma_read_into_ignores_trades(
            next.book,
            read_into(t.book, one),
            bodies.drop_first(),
        );
    }
}

/// The same book but for how many trades were counted.
pub open spec fn same_but_trades(a: BookView, b: BookView) -> bool {
    &&& a.symbols == b.symbols
    &&& a.stats.updates == b.stats.updates
    &&& a.stats.deletes == b.stats.deletes
    &&& a.stats.deletes_of_absent == b.stats.deletes_of_absent
    &&& a.stats.crossed_when_stable == b.stats.crossed_when_stable
    &&& a.stats.crossed_mid_event == b.stats.crossed_mid_event
    &&& a.stats.locked_when_stable == b.stats.locked_when_stable
}

proof fn lemma_read_into_ignores_trades(a: BookView, b: BookView, bodies: Seq<Seq<u8>>)
    requires
        same_but_trades(a, b),
    ensures
        same_but_trades(read_into(a, bodies), read_into(b, bodies)),
    decreases bodies.len(),
{
    if bodies.len() > 0 {
        lemma_read_into_ignores_trades(a, b, bodies.drop_last());
    }
}

/// The book and the stream of a session are those of a receiver that hears its
/// packets, but that the audit counts its trades itself.
pub proof fn law_an_audit_builds_the_book_heard(ps: Seq<PacketView>)
    ensures
        Tally::start().packets(ps).seq == hear_all(ps).seq,
        same_but_trades(Tally::start().packets(ps).book, hear_all(ps).book),
    decreases ps.len(),
{
    if ps.len() > 0 {
        let t = Tally::start().packets(ps.drop_last());
        let h = hear_all(ps.drop_last());
        law_an_audit_builds_the_book_heard(ps.drop_last());
        lemma_packets_last(Tally::start(), ps);
        if let Some((_, s)) = carried(ps.last().data) {
            let (seq, action) = t.seq.observed(s.session, s.first_sequence, s.message_count);
            let seen = Tally { packets: t.packets + 1, seq, ..t };
            let anew = Tally { book: seen.book.cleared(), ..seen };
            lemma_read_same(seen, seen, s.bodies());
            lemma_read_same(anew, anew, s.bodies());
            lemma_book_read(seen, s.bodies());
            lemma_book_read(anew, s.bodies());
            lemma_read_into_ignores_trades(seen.book, h.book, s.bodies());
            lemma_read_into_ignores_trades(anew.book, h.book.cleared(), s.bodies());
        }
    }
}

/// Every symbol is the one with its integer form.
proof fn lemma_symbol_of(key: u64)
    ensures
        symbol_of(key).key() == key,
{
    let b = le64_bytes(key as int);
    lemma_le64_round_trip(key as int);
    let s = Symbol([b[0], b[1], b[2], b[3], b[4], b[5], b[6], b[7]]);
    assert(s.0@ =~= b);
    assert(s.key() == key);
}

/// `quotes` are the quotes of `names` in a book, as text: two-sided symbols, at most
/// eight, in dictionary order, each once, and none is left out that comes before the
/// last of them or for which there is room.
pub open spec fn quotes_of(quotes: Seq<QuoteText>, names: Seq<Symbol>, book: BookView) -> bool {
    &&& quotes.len() == names.len() <= 8
    &&& forall|i: int, j: int|
        0 <= i < j < names.len() ==> (#[trigger] names[i]).key() != (#[trigger] names[j]).key()
    &&& forall|i: int|
        0 <= i < names.len() ==> {
            let v = book.symbol((#[trigger] names[i]).key());
            &&& v.touch().bid is Some && v.touch().ask is Some
            &&& quotes[i].symbol == names[i].text()
            &&& quotes[i].bid == price_text(v.touch().bid->Some_0.0.0 as int)
            &&& quotes[i].bid_size == v.touch().bid->Some_0.1
            &&& quotes[i].ask == price_text(v.touch().ask->Some_0.0.0 as int)
            &&& quotes[i].ask_size == v.touch().ask->Some_0.1
        }
    &&& forall|i: int, j: int|
        0 <= i < j < names.len() ==> !before(
            encode_utf8((#[trigger] names[j]).text()),
            encode_utf8((#[trigger] names[i]).text()),
        )
    &&& forall|s: Symbol|
        (#[trigger] book.symbol(s.key())).touch().bid is Some && book.symbol(s.key()).touch().ask
            is Some ==> (exists|i: int| 0 <= i < names.len() && (#[trigger] names[i]).key() == s.key())
            || (names.len() == 8 && !before(
            encode_utf8(s.text()),
            encode_utf8(names.last().text()),
        ))
}

proof fn lemma_quotes_shown(qs: Seq<QuoteText>, keys: Seq<u64>, book: BookView)
    requires
        shows(qs, keys, book.symbols, book.symbols.dom()),
    ensures
        quotes_of(qs, keys.map_values(|k: u64| symbol_of(k)), book),
{
    let names = keys.map_values(|k: u64| symbol_of(k));
    assert forall|i: int| 0 <= i < names.len() implies (#[trigger] names[i]).key() == keys[i]
        && book.symbols.dom().contains(keys[i]) by {
        lemma_symbol_of(keys[i]);
    }
    assert forall|s: Symbol|
        (#[trigger] book.symbol(s.key())).touch().bid is Some && book.symbol(s.key()).touch().ask
            is Some implies (exists|i: int|
        0 <= i < names.len() && (#[trigger] names[i]).key() == s.key()) || (names.len() == 8
        && !before(encode_utf8(s.text()), encode_utf8(names.last().text()))) by {
        let k = s.key();
        assert(book.symbols.dom().contains(k));
        lemma_symbol_of(k);
        lemma_key_identifies(s, symbol_of(k));
        if keys.contains(k) {
            let i = choose|i: int| 0 <= i < keys.len() && keys[i] == k;
            assert(names[i].key() == s.key());
        } else {
            assert(!before(sort_key(quote_of(k, book.symbols[k])), sort_key(qs.last())));
            assert(qs.last().symbol == names.last().text());
        }
    }
}

/// `types` counts the bodies that decode by type, `kinds` naming them: every type heard
/// and no other, under its label, the most frequent first and ties by type.
pub open spec fn types_of(
    types: Seq<(String, u64)>,
    kinds: Seq<u8>,
    bodies: Seq<Seq<u8>>,
) -> bool {
    &&& types.len() == kinds.len()
    &&& forall|i: int|
        0 <= i < kinds.len() ==> {
            &&& types[i].0@ == label(#[trigger] kinds[i])
            &&& types[i].1 == how_many(bodies, of_type(kinds[i] as int))
            &&& types[i].1 > 0
        }
    &&& forall|i: int, j: int|
        0 <= i < j < kinds.len() ==> types[i].1 > types[j].1 || (types[i].1 == types[j].1
            && #[trigger] kinds[i] < #[trigger] kinds[j])
    &&& forall|k: u8|
        how_many(bodies, #[trigger] of_type(k as int)) > 0 ==> kinds.contains(k)
}

proof fn lemma_types_told(v: Verdict, t: Tally, bodies: Seq<Seq<u8>>)
    requires
        judged(v, t),
        t.counts.len() == 256,
        forall|k: int| 0 <= k < 256 ==> #[trigger] t.counts[k] == how_many(bodies, of_type(k)),
    ensures
        exists|kinds: Seq<u8>| types_of(v.types@, kinds, bodies),
{
    let types = v.types@;
    let ranking = choose|ranking: Seq<(u8, u64)>| #[trigger]
        ranks(ranking, t.counts) && v.types@.len() == ranking.len() && forall|i: int|
            0 <= i < ranking.len() ==> (#[trigger] v.types@[i]).0@ == label(ranking[i].0)
                && v.types@[i].1 == ranking[i].1;
    let kinds = ranking.map_values(|r: (u8, u64)| r.0);
    assert forall|i: int| 0 <= i < kinds.len() implies types[i].0@ == label(#[trigger] kinds[i])
        && types[i].1 == how_many(bodies, of_type(kinds[i] as int)) && types[i].1 > 0 by {
        assert(ranking[i].1 > 0);
        assert(types[i].1 == ranking[i].1);
        assert(t.counts[kinds[i] as int] == how_many(bodies, of_type(kinds[i] as int)));
    }
    assert forall|i: int, j: int| 0 <= i < j < kinds.len() implies types[i].1 > types[j].1 || (
    types[i].1 == types[j].1 && #[trigger] kinds[i] < #[trigger] kinds[j]) by {
        assert(types[i].1 == ranking[i].1 && types[j].1 == ranking[j].1);
    }
    assert forall|k: u8| how_many(bodies, #[trigger] of_type(k as int)) > 0 implies kinds.contains(
        k,
    ) by {
        assert(t.counts[k as int] > 0);
        let i = choose|i: int| 0 <= i < ranking.len() && (#[trigger] ranking[i]).0 == k;
        assert(kinds[i] == k);
    }
    assert(types_of(types, kinds, bodies));
}

/// A verdict tells what was heard: every figure is the count, extreme or listing that
/// its name says, over the bodies heard and the book and stream they make.
pub proof fn law_a_verdict_tells_what_was_heard(v: Verdict, ps: Seq<PacketView>)
    requires
        judged(v, Tally::start().packets(ps)),
    ensures
        ({
            let bodies = heard(SeqView::fresh(1024), ps);
            let h = hear_all(ps);
            &&& v.packets == ps.len()
            &&& v.messages == how_many(bodies, sound())
            &&& v.errors == how_many(bodies, broken())
            &&& v.trades == how_many(bodies, trading())
            &&& v.price_updates == how_many(bodies, quoting())
            &&& v.unknown == how_many(bodies, strange())
            &&& v.gaps == h.seq.stats.gaps_opened
            &&& v.duplicates == h.seq.stats.duplicates
            &&& v.crossed == h.book.stats.crossed_when_stable
            &&& exists|kinds: Seq<u8>| types_of(v.types@, kinds, bodies)
            &&& exists|names: Seq<Symbol>| quotes_of(texts(v.quotes@), names, h.book)
        }),
{
    let t = Tally::start().packets(ps);
    let bodies = heard(SeqView::fresh(1024), ps);
    let h = hear_all(ps);
    law_a_session_is_counted_by_what_was_heard(ps);
    law_an_audit_builds_the_book_heard(ps);
    lemma_types_told(v, t, bodies);
    let keys = choose|keys: Seq<u64>| #[trigger]
        shows(texts(v.quotes@), keys, t.book.symbols, t.book.symbols.dom());
    assert(h.book.symbols == t.book.symbols);
    lemma_quotes_shown(texts(v.quotes@), keys, h.book);
}

/// A verdict's prices are those of the lowest and the highest offer heard, as text,
/// and nothing where none was; its symbols are as many as any body heard is about.
pub proof fn law_a_verdict_tells_the_range_heard(v: Verdict, ps: Seq<PacketView>, low: i64, high: i64)
    requires
        judged(v, Tally::start().packets(ps)),
    ensures
        ({
            let bodies = heard(SeqView::fresh(1024), ps);
            let is_offered = |p: i64| exists|i: int|
                0 <= i < bodies.len() && offers(#[trigger] bodies[i], p);
            let nothing = forall|i: int, p: i64|
                0 <= i < bodies.len() ==> !#[trigger] offers(bodies[i], p);
            &&& nothing ==> v.low@.len() == 0 && v.high@.len() == 0
            &&& is_offered(low) && (forall|i: int, p: i64|
                0 <= i < bodies.len() && #[trigger] offers(bodies[i], p) ==> low <= p)
                ==> v.low@ == price_text(low as int)
            &&& is_offered(high) && (forall|i: int, p: i64|
                0 <= i < bodies.len() && #[trigger] offers(bodies[i], p) ==> p <= high)
                ==> v.high@ == price_text(high as int)
            &&& v.symbols == Set::new(
                |k: u64|
                    exists|i: int| 0 <= i < bodies.len() && mentions(#[trigger] bodies[i], k),
            ).len()
        }),
{
    let t = Tally::start().packets(ps);
    let bodies = heard(SeqView::fresh(1024), ps);
    law_a_session_ranges_over_what_was_heard(ps, low, 0);
    law_a_session_ranges_over_what_was_heard(ps, high, 0);
    let mentioned = Set::new(
        |k: u64| exists|i: int| 0 <= i < bodies.len() && mentions(#[trigger] bodies[i], k),
    );
    assert forall|k: u64| t.symbols.contains(k) <==> mentioned.contains(k) by {
        law_a_session_ranges_over_what_was_heard(ps, low, k);
    }
    assert(t.symbols =~= mentioned);
}

/// A type is counted under the name of the message it is the type byte of.
pub proof fn law_types_are_named_by_their_messages(m: MessageView)
    requires
        sayable(m),
    ensures
        ({
            let name = type_title(written(m)[0]);
            match m {
                MessageView::PriceLevel(u) => name == if u.side is Buy {
                    "Price Level Update (buy)"@
                } else {
                    "Price Level Update (sell)"@
                },
                MessageView::Trade(u) => name == if u.is_break {
                    "Trade Break"@
                } else {
                    "Trade Report"@
                },
                MessageView::SystemEvent(_) => name == "System Event"@,
                MessageView::SecurityDirectory(_) => name == "Security Directory"@,
                MessageView::TradingStatus(_) => name == "Trading Status"@,
                MessageView::OperationalHalt(_) => name == "Operational Halt"@,
                MessageView::ShortSalePriceTest(_) => name == "Short Sale Price Test"@,
                MessageView::SecurityEvent(_) => name == "Security Event"@,
                MessageView::OfficialPrice(_) => name == "Official Price"@,
                MessageView::Auction(_) => name == "Auction Information"@,
                MessageView::Unknown { kind, .. } => name == if kind == 0x49 {
                    "Retail Liquidity (added ~2022)"@
                } else {
                    "unknown"@
                },
            }
        }),
        forall|t: u8| #[trigger] label(t) == "0x"@ + hex(t) + " "@ + type_title(t),
{
    if let MessageView::Unknown { kind, .. } = m {
        crate::deep::laws::lemma_modelled(kind);
    }
}


/// A capture in neither format is called unreadable, and nothing is said of it.
pub proof fn law_an_unreadable_capture_says_nothing(v: Verdict)
    requires
        unread(v),
    ensures
        v.format@ == "unreadable"@,
        v.packets == 0 && v.messages == 0 && v.errors == 0 && v.unknown == 0 && v.symbols == 0,
        v.price_updates == 0 && v.trades == 0 && v.gaps == 0 && v.duplicates == 0,
        v.crossed == 0,
        v.low@.len() == 0 && v.high@.len() == 0 && v.types@.len() == 0 && v.quotes@.len() == 0,
{
}

}
