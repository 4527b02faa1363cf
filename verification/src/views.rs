//! What values are taken for in contracts: their own fields, under their own names.
use vstd::prelude::*;

use crate::book::levels::Levels;
use crate::book::{Stats as BookStats, SymbolBook};
use crate::deep::messages::{Message, MessageView};
use crate::iextp::frame::Datagram;
use crate::iextp::pcap::Packet;
use crate::iextp::segment::Segment;
use crate::iextp::sequencer::Stats;
use crate::pipeline::Counters;
use crate::server::bench::TopOfBook;
use crate::server::http::{Route, RouteView};
use crate::server::verify::Quote;
use crate::synth::market::SymbolState;
use crate::synth::Config;

verus! {

/// A datagram.
pub proof fn law_a_datagram_is_its_fields(d: Datagram<'_>)
    ensures
        d@.src_port == d.src_port,
        d@.dst_port == d.dst_port,
        d@.dst_ip == d.dst_ip@,
        d@.payload == d.payload@,
{
}

/// A packet.
pub proof fn law_a_packet_is_its_fields(p: Packet<'_>)
    ensures
        p@.ts_nanos == p.ts_nanos,
        p@.orig_len == p.orig_len,
        p@.data == p.data@,
{
}

/// A segment.
pub proof fn law_a_segment_is_its_fields(s: Segment<'_>)
    ensures
        s@.version == s.version,
        s@.protocol == s.protocol,
        s@.channel == s.channel,
        s@.session == s.session,
        s@.message_count == s.message_count,
        s@.stream_offset == s.stream_offset,
        s@.first_sequence == s.first_sequence,
        s@.send_time == s.send_time,
        s@.block == s.block@,
{
}

/// A sequencer's counters.
pub proof fn law_sequence_counters_are_their_fields(s: Stats)
    ensures
        s@.delivered == s.delivered,
        s@.duplicates == s.duplicates,
        s@.buffered == s.buffered,
        s@.gaps_opened == s.gaps_opened,
        s@.gaps_healed == s.gaps_healed,
        s@.messages_lost == s.messages_lost,
        s@.session_resets == s.session_resets,
        s@.heartbeats == s.heartbeats,
{
}

/// A book's counters.
pub proof fn law_book_counters_are_their_fields(s: BookStats)
    ensures
        s@.updates == s.updates,
        s@.deletes == s.deletes,
        s@.deletes_of_absent == s.deletes_of_absent,
        s@.crossed_when_stable == s.crossed_when_stable,
        s@.crossed_mid_event == s.crossed_mid_event,
        s@.locked_when_stable == s.locked_when_stable,
        s@.trades == s.trades,
        s@.traded_shares == s.traded_shares,
{
}

/// A pipeline's counters.
pub proof fn law_counters_are_their_fields(c: Counters)
    ensures
        c@.packets == c.packets,
        c@.messages == c.messages,
        c@.book_updates == c.book_updates,
        c@.quotes == c.quotes,
        c@.orders_encoded == c.orders_encoded,
        c@.encode_errors == c.encode_errors,
        c@.resyncs == c.resyncs,
        c@.book_resets == c.book_resets,
        c@.messages_lost == c.messages_lost,
{
}

/// What a capture is generated from.
pub proof fn law_a_configuration_is_its_fields(c: Config)
    ensures
        c@.symbols == c.symbols@,
        c@.segments == c.segments,
        c@.seed == c.seed,
        c@.duplicate_rate == c.duplicate_rate,
        c@.gap_rate == c.gap_rate,
        c@.delete_rate == c.delete_rate,
{
}

/// A symbol in the making.
pub proof fn law_a_generated_symbol_is_its_fields(s: SymbolState)
    ensures
        s@.symbol == s.symbol,
        s@.mid == s.mid,
        s@.bids == s.bids@,
        s@.asks == s.asks@,
{
}

/// A quote as text.
pub proof fn law_a_quote_is_its_fields(q: Quote)
    ensures
        q@.symbol == q.symbol@,
        q@.bid == q.bid@,
        q@.ask == q.ask@,
        q@.bid_size == q.bid_size,
        q@.ask_size == q.ask_size,
{
}

/// A symbol's sides.
pub proof fn law_a_symbol_is_its_sides<L: Levels>(s: SymbolBook<L>)
    ensures
        s@.bids == s.bids.view(),
        s@.asks == s.asks.view(),
        s@.complete == s.complete,
{
}

/// The top of a book as text.
pub proof fn law_a_top_is_its_fields(t: TopOfBook)
    ensures
        t@.symbol == t.symbol@,
        t@.bid is Some <==> t.bid is Some,
        t@.ask is Some <==> t.ask is Some,
        t.bid matches Some((p, n)) ==> t@.bid == Some((p@, n)),
        t.ask matches Some((p, n)) ==> t@.ask == Some((p@, n)),
        t@.bid_levels == t.bid_levels,
        t@.ask_levels == t.ask_levels,
{
}

/// A message is of the type its variant says, with what that holds.
pub proof fn law_a_message_is_what_it_holds(m: Message<'_>)
    ensures
        match m {
            Message::PriceLevel(x) => m@ == MessageView::PriceLevel(x),
            Message::Trade(x) => m@ == MessageView::Trade(x),
            Message::SystemEvent(x) => m@ == MessageView::SystemEvent(x),
            Message::SecurityDirectory(x) => m@ == MessageView::SecurityDirectory(x),
            Message::TradingStatus(x) => m@ == MessageView::TradingStatus(x),
            Message::OperationalHalt(x) => m@ == MessageView::OperationalHalt(x),
            Message::ShortSalePriceTest(x) => m@ == MessageView::ShortSalePriceTest(x),
            Message::SecurityEvent(x) => m@ == MessageView::SecurityEvent(x),
            Message::OfficialPrice(x) => m@ == MessageView::OfficialPrice(x),
            Message::Auction(x) => m@ == MessageView::Auction(x@),
            Message::Unknown { kind, body } => m@ == (MessageView::Unknown { kind, body: body@ }),
        },
{
}

/// A route is the one its variant says, with its query.
pub proof fn law_a_route_is_what_it_holds(r: Route<'_>)
    ensures
        match r {
            Route::Preflight => r@ is Preflight,
            Route::Health => r@ is Health,
            Route::Run(q) => r@ == RouteView::Run(q@),
            Route::Budget => r@ is Budget,
            Route::Days => r@ is Days,
            Route::Verify(q) => r@ == RouteView::Verify(q@),
            Route::Page => r@ is Page,
            Route::Missing => r@ is Missing,
        },
{
}

}
