//! What the path does with each message and each frame.
use vstd::prelude::*;

use crate::book::BookView;
use crate::bytes::be32;
use crate::deep::messages::{decoded, Side};
use crate::iextp::carried;
use crate::iextp::sequencer::{lemma_observed, lemma_resynced, SeqView, StatsView};
use crate::pipeline::order::{
    law_a_token_spells_its_number, law_an_order_is_laid_out, price_fits, token,
};
use crate::pipeline::{resyncs, settled, PipeView, Stage};
use crate::tree::least;

verus! {

/// Messages are handled one after the other, each on what the ones before it left.
pub proof fn law_messages_are_handled_in_turn(
    st: PipeView,
    a: Seq<Seq<u8>>,
    b: Seq<Seq<u8>>,
    body: Seq<u8>,
    upto: Stage,
)
    ensures
        st.run(Seq::empty(), upto) == st,
        st.run(seq![body], upto) == st.handled(body, upto),
        st.run(a + b, upto) == st.run(a, upto).run(b, upto),
    decreases a.len(),
{
    let one = seq![body];
    assert(one.drop_first() =~= Seq::empty());
    assert(st.handled(body, upto).run(one.drop_first(), upto) == st.handled(body, upto));
    if a.len() == 0 {
        assert(a + b =~= b);
    } else {
        assert((a + b).drop_first() =~= a.drop_first() + b);
        law_messages_are_handled_in_turn(
            st.handled(a[0], upto),
            a.drop_first(),
            b,
            body,
            upto,
        );
    }
}

/// A message that does not decode leaves no trace. One that does is counted; past
/// parsing it is told to the book, and a price level counts as a book update. What the
/// sequencer knows, what is put by and the parameters stay.
pub proof fn law_a_message_is_counted_and_booked(st: PipeView, body: Seq<u8>, upto: Stage)
    ensures
        ({
            let next = st.handled(body, upto);
            &&& decoded(body) is Err ==> next == st
            &&& decoded(body) matches Ok(m) ==> {
                &&& next.counters.messages == st.counters.messages + 1
                &&& next.counters.packets == st.counters.packets
                &&& next.counters.resyncs == st.counters.resyncs
                &&& next.counters.book_resets == st.counters.book_resets
                &&& next.counters.messages_lost == st.counters.messages_lost
                &&& next.seq == st.seq
                &&& next.pending == st.pending
                &&& next.params == st.params
                &&& (upto is Receive || upto is Sequence || upto is Parse) ==> next.book == st.book
                    && next.counters.book_updates == st.counters.book_updates
                &&& (upto is BookUpdate || upto is Decide || upto is Encode) ==> next.book
                    == st.book.applied(m) && next.counters.book_updates
                    == st.counters.book_updates + if m is PriceLevel {
                    1int
                } else {
                    0
                }
                &&& !(m is PriceLevel && upto is Encode) ==> {
                    &&& next.issued == st.issued
                    &&& next.out == st.out
                    &&& next.counters.quotes == st.counters.quotes
                    &&& next.counters.orders_encoded == st.counters.orders_encoded
                    &&& next.counters.encode_errors == st.counters.encode_errors
                }
            }
        }),
{
}

/// A price level update leads to an order exactly if it leaves its symbol stable with
/// both sides there and the ask at least the minimum spread above the bid. The order
/// joins that bid: a buy of the symbol at the bid's price for the shares asked for,
/// under the next token. A bid that does not fit 32 bits is an error, spends its token
/// all the same and leaves the last order where it was.
pub proof fn law_an_update_leads_to_an_order(st: PipeView, body: Seq<u8>)
    requires
        decoded(body) is Ok && decoded(body)->Ok_0 is PriceLevel,
    ensures
        ({
            let m = decoded(body)->Ok_0;
            let u = m->PriceLevel_0;
            let next = st.handled(body, Stage::Encode);
            let t = st.book.applied(m).symbol(u.symbol.key()).touch();
            let bid = t.bid->Some_0.0.0;
            let quoted = t.stable && t.bid is Some && t.ask is Some && t.ask->Some_0.0.0 - bid
                >= st.params.min_spread;
            let sent = quoted && 0 <= bid < 0x1_0000_0000;
            &&& next.issued == st.issued + if quoted {
                1int
            } else {
                0
            }
            &&& next.counters.quotes == st.counters.quotes + if quoted {
                1int
            } else {
                0
            }
            &&& next.counters.orders_encoded == st.counters.orders_encoded + if sent {
                1int
            } else {
                0
            }
            &&& next.counters.encode_errors == st.counters.encode_errors + if quoted && !sent {
                1int
            } else {
                0
            }
            &&& !sent ==> next.out == st.out
            &&& sent ==> {
                &&& next.out.len() == 49
                &&& next.out[0] == 0x4f
                &&& next.out.subrange(1, 15) == token(st.issued)
                &&& next.out[15] == 0x42
                &&& be32(next.out, 16) == st.params.shares
                &&& next.out.subrange(20, 28) == u.symbol.0@
                &&& be32(next.out, 28) == bid
            }
        }),
{
    let m = decoded(body)->Ok_0;
    let u = m->PriceLevel_0;
    let t = st.book.applied(m).symbol(u.symbol.key()).touch();
    if t.stable && t.bid is Some && t.ask is Some && t.ask->Some_0.0.0 - t.bid->Some_0.0.0
        >= st.params.min_spread && price_fits(t.bid->Some_0.0) {
        let b = t.bid->Some_0.0;
        law_a_token_spells_its_number(st.issued);
        law_an_order_is_laid_out(token(st.issued), Side::Buy, st.params.shares, u.symbol, b);
    }
}

/// A frame that carries no segment counts as a packet and does nothing else.
pub proof fn law_a_stray_frame_only_counts(st: PipeView, bytes: Seq<u8>, upto: Stage)
    requires
        carried(bytes) is None,
    ensures
        same_but_packets(st, st.received(bytes)),
        same_but_packets(st, st.framed(bytes, upto)),
        st.received(bytes).seq == st.seq,
        st.framed(bytes, upto).seq == st.seq,
{
}

/// Everything but the sequencer stands where it stood, and one more packet came in.
pub open spec fn same_but_packets(a: PipeView, b: PipeView) -> bool {
    &&& b.counters.packets == a.counters.packets + 1
    &&& b.counters.messages == a.counters.messages
    &&& b.counters.book_updates == a.counters.book_updates
    &&& b.counters.quotes == a.counters.quotes
    &&& b.counters.orders_encoded == a.counters.orders_encoded
    &&& b.counters.encode_errors == a.counters.encode_errors
    &&& b.counters.resyncs == a.counters.resyncs
    &&& b.counters.book_resets == a.counters.book_resets
    &&& b.counters.messages_lost == a.counters.messages_lost
    &&& b.book == a.book
    &&& b.params == a.params
    &&& b.issued == a.issued
    &&& b.out == a.out
    &&& b.pending == a.pending
    &&& b.redundant_lookup == a.redundant_lookup
}

/// A heartbeat, or a segment seen before, moves nothing on the production path but the
/// sequencer's own count.
pub proof fn law_an_idle_frame_only_counts(st: PipeView, bytes: Seq<u8>)
    requires
        carried(bytes) matches Some((_, s)) && (s.message_count == 0 || (st.seq.session == Some(
            s.session,
        ) && s.first_sequence < st.seq.expected)),
    ensures
        same_but_packets(st, st.received(bytes)),
{
}

/// A frame that is ahead of its turn is put by under the number it starts at, if fewer
/// than two hundred and fifty-six are, and nothing of it is told to the book yet.
pub proof fn law_an_early_frame_is_put_by(st: PipeView, bytes: Seq<u8>)
    requires
        st.wf(),
        carried(bytes) matches Some((_, s)) && s.message_count > 0 && st.seq.session == Some(
            s.session,
        ) && s.first_sequence > st.seq.expected,
        st.seq.held.dom().len() < 63,
        forall|k: i64| #[trigger] st.pending.contains_key(k) ==> st.seq.expected <= k,
    ensures
        ({
            let (payload, s) = carried(bytes)->Some_0;
            let next = st.received(bytes);
            &&& same_but_packets(st, PipeView { pending: st.pending, ..next })
            &&& next.pending == if st.pending.dom().len() < 256 {
                st.pending.insert(s.first_sequence, payload)
            } else {
                st.pending
            }
            &&& next.seq == st.seq.observed(s.session, s.first_sequence, s.message_count).0
        }),
{
    let (payload, s) = carried(bytes)->Some_0;
    let seen = st.counted().observed(s);
    let kept = seen.put_by(s.first_sequence, payload);
    assert(st.action(s) is Buffered);
    assert(seen.seq.held.dom().len() <= st.seq.held.dom().len() + 1);
    assert(kept.recovered() == kept);
    let k = least(kept.pending);
    if kept.pending.contains_key(k) {
        assert(kept.seq.expected == st.seq.expected);
        assert(k == s.first_sequence || st.pending.contains_key(k));
    }
    assert(kept.caught_up() == kept);
}

/// Sixty-four segments held is where a gap is given up on: one is, once, and below that
/// nothing happens.
pub proof fn law_sixty_four_held_give_up_one_gap(seq: SeqView)
    requires
        seq.wf(),
        seq.held.dom().len() <= 64,
    ensures
        seq.held.dom().len() < 64 ==> settled(seq) == seq && resyncs(seq) == 0,
        seq.held.dom().len() == 64 ==> settled(seq) == seq.resynced() && resyncs(seq) == 1,
{
    if seq.held.dom().len() == 64 {
        lemma_resynced(seq);
        assert(settled(seq.resynced()) == seq.resynced());
        assert(resyncs(seq.resynced()) == 0);
    }
}

/// A prefix that stops at reception looks at no sequence number; one that stops at
/// sequencing tells the book nothing; a deeper one handles the messages of a segment in
/// turn, and those alone.
pub proof fn law_a_prefix_goes_as_far_as_it_says(st: PipeView, bytes: Seq<u8>, upto: Stage)
    requires
        st.wf(),
        carried(bytes) is Some,
        carried(bytes)->Some_0.1.next_sequence() <= i64::MAX,
        st.seq.held.dom().len() < 63,
    ensures
        ({
            let s = carried(bytes)->Some_0.1;
            let (seq, action) = st.seq.observed(s.session, s.first_sequence, s.message_count);
            let next = st.framed(bytes, upto);
            let reset = action is SessionReset;
            let taken = PipeView {
                seq,
                book: if reset {
                    st.book.cleared()
                } else {
                    st.book
                },
                pending: if reset {
                    Map::empty()
                } else {
                    st.pending
                },
                ..st.counted()
            };
            &&& upto is Receive ==> same_but_packets(st, next) && next.seq == st.seq
            &&& upto is Sequence ==> next == taken
            &&& !(upto is Receive) && !(upto is Sequence) ==> next == if action is Deliver
                || reset {
                taken.run(s.bodies(), upto)
            } else {
                taken
            }
        }),
{
    let s = carried(bytes)->Some_0.1;
    lemma_observed(st.seq, s.session, s.first_sequence, s.message_count);
    let seen = st.counted().observed(s);
    assert(seen.seq.held.dom().len() < 64);
    assert(seen.resynced() =~= seen);
}

/// A fresh path knows nothing, has counted nothing and quotes a hundred shares where the
/// spread is two cents or more.
pub proof fn law_a_fresh_path_has_done_nothing()
    ensures
        ({
            let st = PipeView::fresh();
            &&& st.wf()
            &&& st.book == BookView::empty()
            &&& st.params.min_spread == 200
            &&& st.params.shares == 100
            &&& st.issued == 0
            &&& st.out.len() == 49
            &&& forall|i: int| 0 <= i < 49 ==> st.out[i] == 0
            &&& st.pending.dom().is_empty()
            &&& st.seq.session is None
            &&& st.seq.held.dom().is_empty()
            &&& st.seq.max_held == 1024
            &&& st.seq.stats == StatsView::zero()
            &&& st.counters.packets == 0
            &&& st.counters.messages == 0
            &&& st.counters.book_updates == 0
            &&& st.counters.quotes == 0
            &&& st.counters.orders_encoded == 0
            &&& st.counters.encode_errors == 0
            &&& st.counters.resyncs == 0
            &&& st.counters.book_resets == 0
            &&& st.counters.messages_lost == 0
        }),
{
}


/// A path takes any frame whose numbers fit as long as none of its counters is past a
/// quarter of what it can count to.
pub proof fn law_a_path_takes_frames_until_its_counters_fill(st: PipeView, bytes: Seq<u8>)
    requires
        st.wf(),
        carried(bytes) matches Some((_, s)) ==> {
            &&& s.next_sequence() <= i64::MAX
            &&& st.reach(s.first_sequence as int) <= 0x4000_0000_0000_0000
        },
        st.counters.packets <= 0x4000_0000_0000_0000,
        st.counters.messages <= 0x4000_0000_0000_0000,
        st.counters.book_updates <= 0x4000_0000_0000_0000,
        st.counters.quotes <= 0x4000_0000_0000_0000,
        st.counters.orders_encoded <= 0x4000_0000_0000_0000,
        st.counters.encode_errors <= 0x4000_0000_0000_0000,
        st.counters.resyncs <= 0x4000_0000_0000_0000,
        st.counters.book_resets <= 0x4000_0000_0000_0000,
        st.counters.messages_lost <= 0x4000_0000_0000_0000,
        st.issued <= 0x4000_0000_0000_0000,
        st.seq.held.dom().len() <= 0x4000_0000_0000_0000,
        st.seq.stats.delivered <= 0x4000_0000_0000_0000,
        st.seq.stats.duplicates <= 0x4000_0000_0000_0000,
        st.seq.stats.buffered <= 0x4000_0000_0000_0000,
        st.seq.stats.gaps_opened <= 0x4000_0000_0000_0000,
        st.seq.stats.gaps_healed <= 0x4000_0000_0000_0000,
        st.seq.stats.messages_lost <= 0x4000_0000_0000_0000,
        st.seq.stats.session_resets <= 0x4000_0000_0000_0000,
        st.seq.stats.heartbeats <= 0x4000_0000_0000_0000,
        st.book.stats.updates <= 0x4000_0000_0000_0000,
        st.book.stats.deletes <= 0x4000_0000_0000_0000,
        st.book.stats.deletes_of_absent <= 0x4000_0000_0000_0000,
        st.book.stats.crossed_when_stable <= 0x4000_0000_0000_0000,
        st.book.stats.crossed_mid_event <= 0x4000_0000_0000_0000,
        st.book.stats.locked_when_stable <= 0x4000_0000_0000_0000,
        st.book.stats.trades <= 0x4000_0000_0000_0000,
        st.book.stats.traded_shares <= 0x4000_0000_0000_0000,
    ensures
        st.accepts(bytes),
{
}

/// How far ahead a sequencer has been shown is how far the furthest of what it holds, or
/// of the segment it sees, is from the number awaited.
pub proof fn law_reach_is_to_the_furthest(st: PipeView, first: int, k: i64)
    requires
        st.wf(),
    ensures
        st.reach(first) >= first - st.seq.expected,
        st.reach(first) >= 0,
        st.seq.held.contains_key(k) ==> st.reach(first) >= k - st.seq.expected,
        st.seq.held.dom().is_empty() && first <= st.seq.expected ==> st.reach(first) == 0,
        st.reach(first) == 0 || st.reach(first) == first - st.seq.expected || exists|j: i64|
            #[trigger] st.seq.held.contains_key(j) && st.reach(first) == j - st.seq.expected,
{
    crate::iextp::ledger::law_nothing_is_further_than_the_furthest(st.seq);
}

/// Stages are named by what they do, from the wire inward.
pub proof fn law_stages_are_named()
    ensures
        Stage::Receive.title() == "receive (eth/vlan/ip/udp)"@,
        Stage::Sequence.title() == "sequence (IEX-TP, A/B)"@,
        Stage::Parse.title() == "parse (DEEP)"@,
        Stage::BookUpdate.title() == "book update"@,
        Stage::Decide.title() == "decide (strategy)"@,
        Stage::Encode.title() == "encode (OUCH order)"@,
        Stage::Receive.depth() == 0 && Stage::Sequence.depth() == 1 && Stage::Parse.depth() == 2,
        Stage::BookUpdate.depth() == 3 && Stage::Decide.depth() == 4 && Stage::Encode.depth() == 5,
{
}

}
