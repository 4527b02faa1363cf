//! What decoding guarantees, said of bytes laid out one field after the other.
//!
//! [`written`] lays a message out as the feed does: fields in order, each at its
//! width, low byte first. Decoding undoes it, and nothing but what was laid out so
//! decodes.
use vstd::prelude::*;

use super::messages::{
    decoded, fields, i64_at, symbol_at, u32_at, MessageView, OfficialPrice, PriceLevelUpdate,
    SecurityDirectory, Side, SymbolStatus, SystemEvent, Timestamp, Trade, TradingStatus,
};
use super::symbol::Symbol;
use super::Error;
use crate::bytes::{
    le32_bytes, lemma_le32_round_trip, lemma_les64_round_trip, lemma_reads_are_local,
    lemma_spelled_32, lemma_spelled_64, les64_bytes,
};

verus! {

/// Type byte, status byte and time: how every message begins.
pub open spec fn stamp(kind: u8, status: u8, at: Timestamp) -> Seq<u8> {
    seq![kind, status] + les64_bytes(at as int)
}

/// The beginning of a message about a symbol.
pub open spec fn about(kind: u8, status: u8, at: Timestamp, symbol: Symbol) -> Seq<u8> {
    stamp(kind, status, at) + symbol.0@
}

/// A message as the feed lays it out.
pub open spec fn written(m: MessageView) -> Seq<u8> {
    match m {
        MessageView::PriceLevel(m) => {
            let kind: u8 = match m.side {
                Side::Buy => 0x38,
                Side::Sell => 0x35,
            };
            about(kind, m.flags, m.timestamp, m.symbol) + le32_bytes(m.size as int) + les64_bytes(
                m.price.0 as int,
            )
        },
        MessageView::Trade(m) => {
            let kind: u8 = if m.is_break {
                0x42
            } else {
                0x54
            };
            about(kind, m.sale_condition, m.timestamp, m.symbol) + le32_bytes(m.size as int)
                + les64_bytes(m.price.0 as int) + les64_bytes(m.trade_id as int)
        },
        MessageView::SystemEvent(m) => stamp(0x53, m.event, m.timestamp),
        MessageView::SecurityDirectory(m) => about(0x44, m.flags, m.timestamp, m.symbol)
            + le32_bytes(m.round_lot_size as int) + les64_bytes(m.adjusted_poc_price.0 as int)
            + seq![m.luld_tier],
        MessageView::TradingStatus(m) => about(0x48, m.status, m.timestamp, m.symbol)
            + m.reason@,
        MessageView::OperationalHalt(m) => about(0x4f, m.value, m.timestamp, m.symbol),
        MessageView::ShortSalePriceTest(m) => about(0x50, m.value, m.timestamp, m.symbol)
            + seq![m.detail],
        MessageView::SecurityEvent(m) => about(0x45, m.value, m.timestamp, m.symbol),
        MessageView::OfficialPrice(m) => about(0x58, m.price_type, m.timestamp, m.symbol)
            + les64_bytes(m.price.0 as int),
        MessageView::Auction(b) => b,
        MessageView::Unknown { body, .. } => body,
    }
}

/// A type byte this decoder models.
pub open spec fn modelled(kind: u8) -> bool {
    seq![
        0x53u8,
        0x44,
        0x48,
        0x4f,
        0x50,
        0x45,
        0x38,
        0x35,
        0x54,
        0x58,
        0x42,
        0x41,
    ].contains(kind)
}

/// A message the feed can carry: an auction is eighty bytes under its own type byte,
/// an unmodelled one begins with its type byte, and only a short sale price test has
/// a detail.
pub open spec fn sayable(m: MessageView) -> bool {
    match m {
        MessageView::OperationalHalt(s) => s.detail == 0,
        MessageView::SecurityEvent(s) => s.detail == 0,
        MessageView::Auction(b) => b.len() == 80 && b[0] == 0x41,
        MessageView::Unknown { kind, body } => body.len() > 0 && body[0] == kind && !modelled(kind),
        _ => true,
    }
}

pub proof fn lemma_modelled(kind: u8)
    ensures
        modelled(kind) <==> (kind == 0x53 || kind == 0x44 || kind == 0x48 || kind == 0x4f || kind
            == 0x50 || kind == 0x45 || kind == 0x38 || kind == 0x35 || kind == 0x54 || kind == 0x58
            || kind == 0x42 || kind == 0x41),
{
    let s = seq![
        0x53u8,
        0x44,
        0x48,
        0x4f,
        0x50,
        0x45,
        0x38,
        0x35,
        0x54,
        0x58,
        0x42,
        0x41,
    ];
    assert(s[0] == 0x53 && s[1] == 0x44 && s[2] == 0x48 && s[3] == 0x4f && s[4] == 0x50 && s[5]
        == 0x45);
    assert(s[6] == 0x38 && s[7] == 0x35 && s[8] == 0x54 && s[9] == 0x58 && s[10] == 0x42 && s[11]
        == 0x41);
}

/// A signed number read where it was laid out.
proof fn lemma_read_64(b: Seq<u8>, o: int, x: i64)
    requires
        0 <= o,
        o + 8 <= b.len(),
        b.subrange(o, o + 8) == les64_bytes(x as int),
    ensures
        i64_at(b, o) == x,
{
    lemma_les64_round_trip(x as int);
    let t = les64_bytes(x as int);
    assert(t.subrange(0, 8) =~= t);
    lemma_reads_are_local(b, t, o, 0, 8);
}

proof fn lemma_read_32(b: Seq<u8>, o: int, x: u32)
    requires
        0 <= o,
        o + 4 <= b.len(),
        b.subrange(o, o + 4) == le32_bytes(x as int),
    ensures
        u32_at(b, o) == x,
{
    lemma_le32_round_trip(x as int);
    let t = le32_bytes(x as int);
    assert(t.subrange(0, 4) =~= t);
    lemma_reads_are_local(b, t, o, 0, 4);
}

proof fn lemma_read_symbol(b: Seq<u8>, s: Symbol)
    requires
        18 <= b.len(),
        b.subrange(10, 18) == s.0@,
    ensures
        symbol_at(b, 10) == s,
{
    assert forall|i: int| 0 <= i < 8 implies #[trigger] s.0@[i] == b[10 + i] by {
        assert(b.subrange(10, 18)[i] == b[10 + i]);
    }
    assert(symbol_at(b, 10).0@ =~= s.0@);
    assert(symbol_at(b, 10).0 =~= s.0);
}

/// How a message laid out begins.
proof fn lemma_beginning(b: Seq<u8>, kind: u8, status: u8, at: Timestamp, s: Symbol, rest: Seq<u8>)
    requires
        b == about(kind, status, at, s) + rest,
    ensures
        b.len() == 18 + rest.len(),
        b[0] == kind,
        b[1] == status,
        i64_at(b, 2) == at,
        symbol_at(b, 10) == s,
        b.subrange(2, 10) == les64_bytes(at as int),
        b.subrange(10, 18) == s.0@,
        b.subrange(18, b.len() as int) == rest,
        forall|i: int| 0 <= i < rest.len() ==> b[18 + i] == #[trigger] rest[i],
{
    lemma_les64_round_trip(at as int);
    assert(b.subrange(2, 10) =~= les64_bytes(at as int));
    assert(b.subrange(10, 18) =~= s.0@);
    assert(b.subrange(18, b.len() as int) =~= rest);
    lemma_read_64(b, 2, at);
    lemma_read_symbol(b, s);
}

/// What stands behind the beginning, read a field at a time.
proof fn lemma_tail_64(b: Seq<u8>, o: int, x: i64, t: Seq<u8>, p: int)
    requires
        0 <= p,
        p + 8 <= t.len(),
        o == 18 + p,
        18 <= b.len(),
        b.subrange(18, b.len() as int) == t,
        t.subrange(p, p + 8) == les64_bytes(x as int),
    ensures
        i64_at(b, o) == x,
{
    assert(b.len() == 18 + t.len());
    assert(b.subrange(o, o + 8) =~= b.subrange(18, b.len() as int).subrange(p, p + 8));
    lemma_read_64(b, o, x);
}

proof fn lemma_tail_32(b: Seq<u8>, x: u32, t: Seq<u8>)
    requires
        4 <= t.len(),
        18 <= b.len(),
        b.subrange(18, b.len() as int) == t,
        t.subrange(0, 4) == le32_bytes(x as int),
    ensures
        u32_at(b, 18) == x,
{
    assert(b.len() == 18 + t.len());
    assert(b.subrange(18, 22) =~= b.subrange(18, b.len() as int).subrange(0, 4));
    lemma_read_32(b, 18, x);
}

proof fn lemma_price_level(u: PriceLevelUpdate)
    ensures
        decoded(written(MessageView::PriceLevel(u))) == Ok::<MessageView, Error>(
            MessageView::PriceLevel(u),
        ),
{
    let b = written(MessageView::PriceLevel(u));
    let kind: u8 = match u.side {
        Side::Buy => 0x38,
        Side::Sell => 0x35,
    };
    let t = le32_bytes(u.size as int) + les64_bytes(u.price.0 as int);
    lemma_le32_round_trip(u.size as int);
    lemma_les64_round_trip(u.price.0 as int);
    assert(b =~= about(kind, u.flags, u.timestamp, u.symbol) + t);
    lemma_beginning(b, kind, u.flags, u.timestamp, u.symbol, t);
    assert(t.subrange(0, 4) =~= le32_bytes(u.size as int));
    assert(t.subrange(4, 12) =~= les64_bytes(u.price.0 as int));
    lemma_tail_32(b, u.size, t);
    lemma_tail_64(b, 22, u.price.0, t, 4);
    assert(fields(b) == MessageView::PriceLevel(u));
}

proof fn lemma_trade(u: Trade)
    ensures
        decoded(written(MessageView::Trade(u))) == Ok::<MessageView, Error>(MessageView::Trade(u)),
{
    let b = written(MessageView::Trade(u));
    let kind: u8 = if u.is_break {
        0x42
    } else {
        0x54
    };
    let t = le32_bytes(u.size as int) + les64_bytes(u.price.0 as int) + les64_bytes(
        u.trade_id as int,
    );
    lemma_le32_round_trip(u.size as int);
    lemma_les64_round_trip(u.price.0 as int);
    lemma_les64_round_trip(u.trade_id as int);
    assert(b =~= about(kind, u.sale_condition, u.timestamp, u.symbol) + t);
    lemma_beginning(b, kind, u.sale_condition, u.timestamp, u.symbol, t);
    assert(t.subrange(0, 4) =~= le32_bytes(u.size as int));
    assert(t.subrange(4, 12) =~= les64_bytes(u.price.0 as int));
    assert(t.subrange(12, 20) =~= les64_bytes(u.trade_id as int));
    lemma_tail_32(b, u.size, t);
    lemma_tail_64(b, 22, u.price.0, t, 4);
    lemma_tail_64(b, 30, u.trade_id, t, 12);
    assert(fields(b) == MessageView::Trade(u));
}

proof fn lemma_system_event(u: SystemEvent)
    ensures
        decoded(written(MessageView::SystemEvent(u))) == Ok::<MessageView, Error>(
            MessageView::SystemEvent(u),
        ),
{
    let b = written(MessageView::SystemEvent(u));
    lemma_les64_round_trip(u.timestamp as int);
    assert(b.subrange(2, 10) =~= les64_bytes(u.timestamp as int));
    lemma_read_64(b, 2, u.timestamp);
    assert(fields(b) == MessageView::SystemEvent(u));
}

proof fn lemma_directory(u: SecurityDirectory)
    ensures
        decoded(written(MessageView::SecurityDirectory(u))) == Ok::<MessageView, Error>(
            MessageView::SecurityDirectory(u),
        ),
{
    let b = written(MessageView::SecurityDirectory(u));
    let t = le32_bytes(u.round_lot_size as int) + les64_bytes(u.adjusted_poc_price.0 as int)
        + seq![u.luld_tier];
    lemma_le32_round_trip(u.round_lot_size as int);
    lemma_les64_round_trip(u.adjusted_poc_price.0 as int);
    assert(b =~= about(0x44, u.flags, u.timestamp, u.symbol) + t);
    lemma_beginning(b, 0x44, u.flags, u.timestamp, u.symbol, t);
    assert(t.subrange(0, 4) =~= le32_bytes(u.round_lot_size as int));
    assert(t.subrange(4, 12) =~= les64_bytes(u.adjusted_poc_price.0 as int));
    lemma_tail_32(b, u.round_lot_size, t);
    lemma_tail_64(b, 22, u.adjusted_poc_price.0, t, 4);
    assert(b[30] == t[12]);
    assert(fields(b) == MessageView::SecurityDirectory(u));
}

proof fn lemma_trading_status(u: TradingStatus)
    ensures
        decoded(written(MessageView::TradingStatus(u))) == Ok::<MessageView, Error>(
            MessageView::TradingStatus(u),
        ),
{
    let b = written(MessageView::TradingStatus(u));
    let t = u.reason@;
    lemma_beginning(b, 0x48, u.status, u.timestamp, u.symbol, t);
    assert(b[18] == t[0] && b[19] == t[1] && b[20] == t[2] && b[21] == t[3]);
    assert([b[18], b[19], b[20], b[21]]@ =~= u.reason@);
    assert([b[18], b[19], b[20], b[21]] =~= u.reason);
    assert(fields(b) == MessageView::TradingStatus(u));
}

proof fn lemma_official_price(u: OfficialPrice)
    ensures
        decoded(written(MessageView::OfficialPrice(u))) == Ok::<MessageView, Error>(
            MessageView::OfficialPrice(u),
        ),
{
    let b = written(MessageView::OfficialPrice(u));
    let t = les64_bytes(u.price.0 as int);
    lemma_les64_round_trip(u.price.0 as int);
    lemma_beginning(b, 0x58, u.price_type, u.timestamp, u.symbol, t);
    assert(t.subrange(0, 8) =~= t);
    lemma_tail_64(b, 18, u.price.0, t, 0);
    assert(fields(b) == MessageView::OfficialPrice(u));
}

/// Whatever message the feed lays out, decoding gives that message back: every field
/// of every type.
pub proof fn law_messages_read_back(m: MessageView)
    requires
        sayable(m),
    ensures
        decoded(written(m)) == Ok::<MessageView, Error>(m),
{
    match m {
        MessageView::PriceLevel(u) => lemma_price_level(u),
        MessageView::Trade(u) => lemma_trade(u),
        MessageView::SystemEvent(u) => lemma_system_event(u),
        MessageView::SecurityDirectory(u) => lemma_directory(u),
        MessageView::TradingStatus(u) => lemma_trading_status(u),
        MessageView::OfficialPrice(u) => lemma_official_price(u),
        MessageView::OperationalHalt(u) => lemma_status(0x4f, u, Seq::empty()),
        MessageView::SecurityEvent(u) => lemma_status(0x45, u, Seq::empty()),
        MessageView::ShortSalePriceTest(u) => lemma_status(0x50, u, seq![u.detail]),
        MessageView::Auction(_) => {},
        MessageView::Unknown { kind, .. } => lemma_modelled(kind),
    }
}

proof fn lemma_status(kind: u8, u: SymbolStatus, rest: Seq<u8>)
    ensures
        ({
            let b = about(kind, u.value, u.timestamp, u.symbol) + rest;
            &&& b.len() == 18 + rest.len()
            &&& b[0] == kind
            &&& b[1] == u.value
            &&& i64_at(b, 2) == u.timestamp
            &&& symbol_at(b, 10) == u.symbol
            &&& rest.len() > 0 ==> b[18] == rest[0]
            &&& rest.len() == 0 ==> b == about(kind, u.value, u.timestamp, u.symbol)
        }),
{
    let b = about(kind, u.value, u.timestamp, u.symbol) + rest;
    lemma_beginning(b, kind, u.value, u.timestamp, u.symbol, rest);
    if rest.len() > 0 {
        assert(b[18] == rest[0]);
    } else {
        assert(b =~= about(kind, u.value, u.timestamp, u.symbol));
    }
}

/// The bytes of a symbol read where it stands.
proof fn lemma_spelled_symbol(b: Seq<u8>)
    requires
        18 <= b.len(),
    ensures
        symbol_at(b, 10).0@ == b.subrange(10, 18),
{
    assert(symbol_at(b, 10).0@ =~= b.subrange(10, 18));
}

proof fn lemma_spelled_beginning(b: Seq<u8>)
    requires
        18 <= b.len(),
    ensures
        about(b[0], b[1], i64_at(b, 2), symbol_at(b, 10)) == b.subrange(0, 18),
{
    lemma_spelled_64(b, 2);
    lemma_spelled_symbol(b);
    assert(about(b[0], b[1], i64_at(b, 2), symbol_at(b, 10)) =~= b.subrange(0, 18));
}

proof fn lemma_fields_spelled(b: Seq<u8>)
    requires
        b.len() > 0,
        modelled(b[0]),
        decoded(b) is Ok,
    ensures
        written(fields(b)) == b,
        sayable(fields(b)),
        !(fields(b) is Unknown),
{
    lemma_modelled(b[0]);
    let k = b[0];
    if k == 0x53 {
        lemma_spelled_64(b, 2);
        assert(written(fields(b)) =~= b);
    } else if k != 0x41 {
        lemma_spelled_beginning(b);
        let head = b.subrange(0, 18);
        if k == 0x38 || k == 0x35 {
            lemma_spelled_32(b, 18);
            lemma_spelled_64(b, 22);
            assert(head + b.subrange(18, 22) + b.subrange(22, 30) =~= b);
        } else if k == 0x54 || k == 0x42 {
            lemma_spelled_32(b, 18);
            lemma_spelled_64(b, 22);
            lemma_spelled_64(b, 30);
            assert(head + b.subrange(18, 22) + b.subrange(22, 30) + b.subrange(30, 38) =~= b);
        } else if k == 0x44 {
            lemma_spelled_32(b, 18);
            lemma_spelled_64(b, 22);
            assert(head + b.subrange(18, 22) + b.subrange(22, 30) + seq![b[30]] =~= b);
        } else if k == 0x48 {
            assert(head + [b[18], b[19], b[20], b[21]]@ =~= b);
        } else if k == 0x58 {
            lemma_spelled_64(b, 18);
            assert(head + b.subrange(18, 26) =~= b);
        } else if k == 0x50 {
            assert(head + seq![b[18]] =~= b);
        } else {
            assert(head =~= b);
        }
    }
}

/// Decoding makes nothing up and leaves nothing out: what comes of a body, laid out
/// again, is that body.
pub proof fn law_nothing_is_lost_in_decoding(b: Seq<u8>)
    ensures
        decoded(b) matches Ok(m) ==> written(m) == b && sayable(m),
{
    if decoded(b) is Ok {
        lemma_modelled(b[0]);
        if modelled(b[0]) {
            lemma_fields_spelled(b);
        }
    }
}

/// A body fails to decode exactly if no message is laid out like that: it is empty,
/// or it is of a type that is modelled and not of the length any message of that
/// type has. The error names the type, that length and the body's own.
pub proof fn law_only_wrong_lengths_fail(b: Seq<u8>, m: MessageView)
    requires
        sayable(m),
    ensures
        b.len() == 0 <==> decoded(b) == Err::<MessageView, Error>(Error::Empty),
        b.len() > 0 && !modelled(b[0]) ==> decoded(b) is Ok,
        b.len() > 0 && !(m is Unknown) && b[0] == written(m)[0] && b.len() != written(m).len()
            ==> decoded(b) == Err::<MessageView, Error>(
            Error::WrongLength {
                kind: b[0],
                expected: written(m).len() as usize,
                got: b.len() as usize,
            },
        ),
        b.len() > 0 && !(m is Unknown) && b[0] == written(m)[0] && b.len() == written(m).len()
            ==> decoded(b) is Ok,
        !(m is Unknown) <==> modelled(written(m)[0]),
{
    law_messages_read_back(m);
    lemma_modelled(written(m)[0]);
    if b.len() > 0 {
        lemma_modelled(b[0]);
    }
}

/// The symbol and the time a message is asked for are the bytes it carries at their
/// places. Only a system event has no symbol; only an unmodelled type has neither.
pub proof fn law_symbol_and_time_are_those_carried(m: MessageView)
    requires
        sayable(m),
    ensures
        m.symbol() is None <==> (m is SystemEvent || m is Unknown),
        m.timestamp() is None <==> m is Unknown,
        m.symbol() matches Some(s) ==> written(m).len() >= 18 && s.0@ == written(m).subrange(10, 18),
        m.timestamp() matches Some(at) ==> written(m).len() >= 10 && les64_bytes(at as int)
            == written(m).subrange(2, 10),
{
    let b = written(m);
    law_messages_read_back(m);
    if !(m is Unknown) {
        law_only_wrong_lengths_fail(b, m);
        lemma_modelled(b[0]);
        lemma_fields_spelled(b);
        lemma_spelled_64(b, 2);
        if !(m is SystemEvent) {
            lemma_spelled_symbol(b);
        }
    }
}

/// An update completes its event exactly if bit 0 of its flags is set, whatever the
/// other bits are, and deletes its level exactly if it leaves no size.
pub proof fn law_flags_and_deletes(u: PriceLevelUpdate)
    ensures
        u.event_complete() <==> u.flags & 1 == 1,
        u.is_delete() <==> u.size == 0,
{
    let f = u.flags;
    assert(f % 2 == 1 <==> f & 1 == 1) by (bit_vector);
}

}
