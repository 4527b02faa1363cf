//! DEEP 1.0 message bodies.
//!
//! Every message type has exactly one length, recorded in [`expected_len`], and
//! the parser rejects any message whose length disagrees: a fixed-width format
//! that suddenly is not fixed-width means the framing above it is wrong, and
//! continuing would produce confident nonsense.
//!
//! All multi-byte fields are little-endian, matching the transport and unlike the
//! Ethernet, IP and UDP headers above it.
use vstd::prelude::*;

use crate::bytes::{i64_le, le32, les64, u32_le};
use crate::deep::price::Price;
use crate::deep::symbol::Symbol;
use crate::deep::Error;

verus! {

/// Nanoseconds since the Unix epoch, as the feed stamps them.
pub type Timestamp = i64;

/// The signed number at `o`.
pub open spec fn i64_at(b: Seq<u8>, o: int) -> i64 {
    les64(b, o) as i64
}

/// The unsigned 32-bit number at `o`.
pub open spec fn u32_at(b: Seq<u8>, o: int) -> u32 {
    le32(b, o) as u32
}

/// The symbol in the eight bytes at `o`.
pub open spec fn symbol_at(b: Seq<u8>, o: int) -> Symbol {
    Symbol([b[o], b[o + 1], b[o + 2], b[o + 3], b[o + 4], b[o + 5], b[o + 6], b[o + 7]])
}

fn symbol(b: &[u8], o: usize) -> (r: Symbol)
    requires
        o + 8 <= b.len(),
    ensures
        r == symbol_at(b@, o as int),
{
    Symbol([b[o], b[o + 1], b[o + 2], b[o + 3], b[o + 4], b[o + 5], b[o + 6], b[o + 7]])
}

/// Which side of the book a price level update applies to.
#[derive(Debug, Clone, Copy, PartialEq, Eq, Hash, Structural)]
pub enum Side {
    Buy,
    Sell,
}

/// A change to one price level. Nearly all feed traffic.
///
/// A `size` of zero is a *deletion* of the level, not a level with no shares.
/// Treating it as an update would leave empty levels in the book forever and
/// slowly corrupt the touch.
#[derive(Debug, Clone, Copy, PartialEq, Eq)]
pub struct PriceLevelUpdate {
    pub side: Side,
    pub flags: u8,
    pub timestamp: Timestamp,
    pub symbol: Symbol,
    pub size: u32,
    pub price: Price,
}

impl PriceLevelUpdate {
    /// Bit 0 of the event flags: this update completes an atomic group.
    ///
    /// IEX may split one book event across several messages. A consumer that
    /// publishes a top-of-book after every message will briefly show a crossed
    /// or half-updated book; one that waits for this flag never does.
    #[verifier::allow_in_spec]
    pub fn event_complete(self) -> (r: bool)
        returns
            self.flags % 2 == 1,
    {
        self.flags % 2 == 1
    }

    /// A zero size removes the level.
    #[verifier::allow_in_spec]
    pub fn is_delete(self) -> (r: bool)
        returns
            self.size == 0,
    {
        self.size == 0
    }
}

/// An execution.
#[derive(Debug, Clone, Copy, PartialEq, Eq)]
pub struct Trade {
    /// True when this is a Trade Break rather than a report: a previously
    /// published trade being cancelled.
    pub is_break: bool,
    pub sale_condition: u8,
    pub timestamp: Timestamp,
    pub symbol: Symbol,
    pub size: u32,
    pub price: Price,
    pub trade_id: i64,
}

/// Start and end of the trading session's phases.
#[derive(Debug, Clone, Copy, PartialEq, Eq)]
pub struct SystemEvent {
    pub event: u8,
    pub timestamp: Timestamp,
}

/// Per-symbol reference data, published before the session.
#[derive(Debug, Clone, Copy, PartialEq, Eq)]
pub struct SecurityDirectory {
    pub flags: u8,
    pub timestamp: Timestamp,
    pub symbol: Symbol,
    pub round_lot_size: u32,
    pub adjusted_poc_price: Price,
    pub luld_tier: u8,
}

/// Halted, paused, or trading.
#[derive(Debug, Clone, Copy, PartialEq, Eq)]
pub struct TradingStatus {
    pub status: u8,
    pub timestamp: Timestamp,
    pub symbol: Symbol,
    pub reason: [u8; 4],
}

/// A single-byte status keyed to a symbol: operational halt, short sale price
/// test, or security event. The three share a shape, so they share a struct and
/// are told apart by [`Message`].
#[derive(Debug, Clone, Copy, PartialEq, Eq)]
pub struct SymbolStatus {
    pub value: u8,
    pub timestamp: Timestamp,
    pub symbol: Symbol,
    /// Extra byte carried only by Short Sale Price Test.
    pub detail: u8,
}

/// Official opening or closing price.
#[derive(Debug, Clone, Copy, PartialEq, Eq)]
pub struct OfficialPrice {
    pub price_type: u8,
    pub timestamp: Timestamp,
    pub symbol: Symbol,
    pub price: Price,
}

/// Auction state. Kept *borrowed* rather than inlined: it is by far the largest
/// message and the rarest, so inlining it would more than double [`Message`] and
/// slow the common case to make the rare one tidier.
#[derive(Debug, Clone, Copy, PartialEq, Eq)]
pub struct AuctionInformation<'a> {
    body: &'a [u8],
}

impl<'a> View for AuctionInformation<'a> {
    type V = Seq<u8>;

    closed spec fn view(&self) -> Seq<u8> {
        self.body@
    }
}

impl<'a> AuctionInformation<'a> {
    #[verifier::type_invariant]
    spec fn full_width(self) -> bool {
        self.body@.len() == 80
    }

    pub fn auction_type(&self) -> (r: u8)
        ensures
            r == self@[1],
    {
        proof {
            use_type_invariant(self);
        }
        self.body[1]
    }

    pub fn timestamp(&self) -> (r: Timestamp)
        ensures
            r == i64_at(self@, 2),
    {
        proof {
            use_type_invariant(self);
        }
        i64_le(self.body, 2)
    }

    pub fn symbol(&self) -> (r: Symbol)
        ensures
            r == symbol_at(self@, 10),
    {
        proof {
            use_type_invariant(self);
        }
        symbol(self.body, 10)
    }

    pub fn paired_shares(&self) -> (r: u32)
        ensures
            r == u32_at(self@, 18),
    {
        proof {
            use_type_invariant(self);
        }
        u32_le(self.body, 18)
    }

    pub fn reference_price(&self) -> (r: Price)
        ensures
            r == Price(i64_at(self@, 22)),
    {
        proof {
            use_type_invariant(self);
        }
        Price::from_raw(i64_le(self.body, 22))
    }

    pub fn indicative_clearing_price(&self) -> (r: Price)
        ensures
            r == Price(i64_at(self@, 30)),
    {
        proof {
            use_type_invariant(self);
        }
        Price::from_raw(i64_le(self.body, 30))
    }

    pub fn imbalance_shares(&self) -> (r: u32)
        ensures
            r == u32_at(self@, 38),
    {
        proof {
            use_type_invariant(self);
        }
        u32_le(self.body, 38)
    }

    pub fn imbalance_side(&self) -> (r: u8)
        ensures
            r == self@[42],
    {
        proof {
            use_type_invariant(self);
        }
        self.body[42]
    }

    pub fn raw(&self) -> (r: &'a [u8])
        ensures
            r@ == self@,
    {
        self.body
    }
}

/// One decoded DEEP message.
#[derive(Debug, Clone, Copy, PartialEq, Eq)]
pub enum Message<'a> {
    PriceLevel(PriceLevelUpdate),
    Trade(Trade),
    SystemEvent(SystemEvent),
    SecurityDirectory(SecurityDirectory),
    TradingStatus(TradingStatus),
    OperationalHalt(SymbolStatus),
    ShortSalePriceTest(SymbolStatus),
    SecurityEvent(SymbolStatus),
    OfficialPrice(OfficialPrice),
    Auction(AuctionInformation<'a>),
    /// A type this decoder does not know. Kept rather than dropped so a capture
    /// containing a newer message is still countable.
    Unknown { kind: u8, body: &'a [u8] },
}

/// A message with its borrowed parts as byte strings.
#[verifier::ext_equal]
pub enum MessageView {
    PriceLevel(PriceLevelUpdate),
    Trade(Trade),
    SystemEvent(SystemEvent),
    SecurityDirectory(SecurityDirectory),
    TradingStatus(TradingStatus),
    OperationalHalt(SymbolStatus),
    ShortSalePriceTest(SymbolStatus),
    SecurityEvent(SymbolStatus),
    OfficialPrice(OfficialPrice),
    Auction(Seq<u8>),
    Unknown { kind: u8, body: Seq<u8> },
}

impl<'a> View for Message<'a> {
    type V = MessageView;

    open spec fn view(&self) -> MessageView {
        match *self {
            Message::PriceLevel(m) => MessageView::PriceLevel(m),
            Message::Trade(m) => MessageView::Trade(m),
            Message::SystemEvent(m) => MessageView::SystemEvent(m),
            Message::SecurityDirectory(m) => MessageView::SecurityDirectory(m),
            Message::TradingStatus(m) => MessageView::TradingStatus(m),
            Message::OperationalHalt(m) => MessageView::OperationalHalt(m),
            Message::ShortSalePriceTest(m) => MessageView::ShortSalePriceTest(m),
            Message::SecurityEvent(m) => MessageView::SecurityEvent(m),
            Message::OfficialPrice(m) => MessageView::OfficialPrice(m),
            Message::Auction(m) => MessageView::Auction(m@),
            Message::Unknown { kind, body } => MessageView::Unknown { kind, body: body@ },
        }
    }
}

impl MessageView {
    /// The symbol a message concerns, if any.
    pub open spec fn symbol(self) -> Option<Symbol> {
        match self {
            MessageView::PriceLevel(m) => Some(m.symbol),
            MessageView::Trade(m) => Some(m.symbol),
            MessageView::SystemEvent(_) => None,
            MessageView::SecurityDirectory(m) => Some(m.symbol),
            MessageView::TradingStatus(m) => Some(m.symbol),
            MessageView::OperationalHalt(m) => Some(m.symbol),
            MessageView::ShortSalePriceTest(m) => Some(m.symbol),
            MessageView::SecurityEvent(m) => Some(m.symbol),
            MessageView::OfficialPrice(m) => Some(m.symbol),
            MessageView::Auction(b) => Some(symbol_at(b, 10)),
            MessageView::Unknown { .. } => None,
        }
    }

    /// The feed timestamp of a message, if it has one.
    pub open spec fn timestamp(self) -> Option<Timestamp> {
        match self {
            MessageView::PriceLevel(m) => Some(m.timestamp),
            MessageView::Trade(m) => Some(m.timestamp),
            MessageView::SystemEvent(m) => Some(m.timestamp),
            MessageView::SecurityDirectory(m) => Some(m.timestamp),
            MessageView::TradingStatus(m) => Some(m.timestamp),
            MessageView::OperationalHalt(m) => Some(m.timestamp),
            MessageView::ShortSalePriceTest(m) => Some(m.timestamp),
            MessageView::SecurityEvent(m) => Some(m.timestamp),
            MessageView::OfficialPrice(m) => Some(m.timestamp),
            MessageView::Auction(b) => Some(i64_at(b, 2)),
            MessageView::Unknown { .. } => None,
        }
    }
}

impl<'a> Message<'a> {
    /// The symbol this message concerns, if any. System events carry none.
    pub fn symbol(&self) -> (r: Option<Symbol>)
        ensures
            r == self@.symbol(),
    {
        match self {
            Message::PriceLevel(m) => Some(m.symbol),
            Message::Trade(m) => Some(m.symbol),
            Message::SecurityDirectory(m) => Some(m.symbol),
            Message::TradingStatus(m) => Some(m.symbol),
            Message::OperationalHalt(m) => Some(m.symbol),
            Message::ShortSalePriceTest(m) => Some(m.symbol),
            Message::SecurityEvent(m) => Some(m.symbol),
            Message::OfficialPrice(m) => Some(m.symbol),
            Message::Auction(m) => Some(m.symbol()),
            Message::SystemEvent(_) => None,
            Message::Unknown { .. } => None,
        }
    }

    /// Feed timestamp, nanoseconds since the epoch.
    pub fn timestamp(&self) -> (r: Option<Timestamp>)
        ensures
            r == self@.timestamp(),
    {
        match self {
            Message::PriceLevel(m) => Some(m.timestamp),
            Message::Trade(m) => Some(m.timestamp),
            Message::SystemEvent(m) => Some(m.timestamp),
            Message::SecurityDirectory(m) => Some(m.timestamp),
            Message::TradingStatus(m) => Some(m.timestamp),
            Message::OperationalHalt(m) => Some(m.timestamp),
            Message::ShortSalePriceTest(m) => Some(m.timestamp),
            Message::SecurityEvent(m) => Some(m.timestamp),
            Message::OfficialPrice(m) => Some(m.timestamp),
            Message::Auction(m) => Some(m.timestamp()),
            Message::Unknown { .. } => None,
        }
    }
}

// Message type bytes.
pub const T_SYSTEM_EVENT: u8 = 0x53;

pub const T_SECURITY_DIRECTORY: u8 = 0x44;

pub const T_TRADING_STATUS: u8 = 0x48;

pub const T_OPERATIONAL_HALT: u8 = 0x4f;

pub const T_SHORT_SALE_PRICE_TEST: u8 = 0x50;

pub const T_SECURITY_EVENT: u8 = 0x45;

pub const T_PRICE_LEVEL_BUY: u8 = 0x38;

pub const T_PRICE_LEVEL_SELL: u8 = 0x35;

pub const T_TRADE_REPORT: u8 = 0x54;

pub const T_OFFICIAL_PRICE: u8 = 0x58;

pub const T_TRADE_BREAK: u8 = 0x42;

pub const T_AUCTION_INFORMATION: u8 = 0x41;

/// The wire length of each known message type.
pub open spec fn wire_len(kind: u8) -> Option<usize> {
    if kind == T_PRICE_LEVEL_BUY || kind == T_PRICE_LEVEL_SELL {
        Some(30)
    } else if kind == T_TRADE_REPORT || kind == T_TRADE_BREAK {
        Some(38)
    } else if kind == T_SYSTEM_EVENT {
        Some(10)
    } else if kind == T_SECURITY_DIRECTORY {
        Some(31)
    } else if kind == T_TRADING_STATUS {
        Some(22)
    } else if kind == T_OPERATIONAL_HALT || kind == T_SECURITY_EVENT {
        Some(18)
    } else if kind == T_SHORT_SALE_PRICE_TEST {
        Some(19)
    } else if kind == T_OFFICIAL_PRICE {
        Some(26)
    } else if kind == T_AUCTION_INFORMATION {
        Some(80)
    } else {
        None
    }
}

/// What a message body says, or why it says nothing.
///
/// Each field is read at its fixed offset from a body of the length its type
/// byte calls for.
pub open spec fn decoded(b: Seq<u8>) -> Result<MessageView, Error> {
    if b.len() == 0 {
        Err(Error::Empty)
    } else {
        let kind = b[0];
        match wire_len(kind) {
            None => Ok(MessageView::Unknown { kind, body: b }),
            Some(want) => if b.len() != want {
                Err(Error::WrongLength { kind, expected: want, got: b.len() as usize })
            } else {
                Ok(fields(b))
            },
        }
    }
}

/// The message in a body of a known type and the right length.
pub open spec fn fields(b: Seq<u8>) -> MessageView {
    let kind = b[0];
    if kind == T_PRICE_LEVEL_BUY || kind == T_PRICE_LEVEL_SELL {
        MessageView::PriceLevel(
            PriceLevelUpdate {
                side: if kind == T_PRICE_LEVEL_BUY {
                    Side::Buy
                } else {
                    Side::Sell
                },
                flags: b[1],
                timestamp: i64_at(b, 2),
                symbol: symbol_at(b, 10),
                size: u32_at(b, 18),
                price: Price(i64_at(b, 22)),
            },
        )
    } else if kind == T_TRADE_REPORT || kind == T_TRADE_BREAK {
        MessageView::Trade(
            Trade {
                is_break: kind == T_TRADE_BREAK,
                sale_condition: b[1],
                timestamp: i64_at(b, 2),
                symbol: symbol_at(b, 10),
                size: u32_at(b, 18),
                price: Price(i64_at(b, 22)),
                trade_id: i64_at(b, 30),
            },
        )
    } else if kind == T_SYSTEM_EVENT {
        MessageView::SystemEvent(SystemEvent { event: b[1], timestamp: i64_at(b, 2) })
    } else if kind == T_SECURITY_DIRECTORY {
        MessageView::SecurityDirectory(
            SecurityDirectory {
                flags: b[1],
                timestamp: i64_at(b, 2),
                symbol: symbol_at(b, 10),
                round_lot_size: u32_at(b, 18),
                adjusted_poc_price: Price(i64_at(b, 22)),
                luld_tier: b[30],
            },
        )
    } else if kind == T_TRADING_STATUS {
        MessageView::TradingStatus(
            TradingStatus {
                status: b[1],
                timestamp: i64_at(b, 2),
                symbol: symbol_at(b, 10),
                reason: [b[18], b[19], b[20], b[21]],
            },
        )
    } else if kind == T_OFFICIAL_PRICE {
        MessageView::OfficialPrice(
            OfficialPrice {
                price_type: b[1],
                timestamp: i64_at(b, 2),
                symbol: symbol_at(b, 10),
                price: Price(i64_at(b, 18)),
            },
        )
    } else if kind == T_AUCTION_INFORMATION {
        MessageView::Auction(b)
    } else {
        let status = SymbolStatus {
            value: b[1],
            timestamp: i64_at(b, 2),
            symbol: symbol_at(b, 10),
            detail: if kind == T_SHORT_SALE_PRICE_TEST {
                b[18]
            } else {
                0
            },
        };
        if kind == T_OPERATIONAL_HALT {
            MessageView::OperationalHalt(status)
        } else if kind == T_SECURITY_EVENT {
            MessageView::SecurityEvent(status)
        } else {
            MessageView::ShortSalePriceTest(status)
        }
    }
}

/// Wire length for a known message type: one length per type, always.
pub fn expected_len(kind: u8) -> (r: Option<usize>)
    ensures
        r == wire_len(kind),
{
    match kind {
        T_SYSTEM_EVENT => Some(10),
        T_SECURITY_DIRECTORY => Some(31),
        T_TRADING_STATUS => Some(22),
        T_OPERATIONAL_HALT | T_SECURITY_EVENT => Some(18),
        T_SHORT_SALE_PRICE_TEST => Some(19),
        T_PRICE_LEVEL_BUY | T_PRICE_LEVEL_SELL => Some(30),
        T_TRADE_REPORT | T_TRADE_BREAK => Some(38),
        T_OFFICIAL_PRICE => Some(26),
        T_AUCTION_INFORMATION => Some(80),
        _ => None,
    }
}

/// Decode one message body.
///
/// Returns [`Message::Unknown`] for a type this decoder does not model, and
/// `Err` only when a *known* type arrives at the wrong length, which means the
/// framing above is wrong, not that the message is exotic.
pub fn parse<'a>(body: &'a [u8]) -> (r: Result<Message<'a>, Error>)
    ensures
        match r {
            Ok(m) => decoded(body@) == Ok::<MessageView, Error>(m@),
            Err(e) => decoded(body@) == Err::<MessageView, Error>(e),
        },
{
    if body.len() == 0 {
        return Err(Error::Empty);
    }
    let kind: u8 = body[0];
    let want: usize = match expected_len(kind) {
        Some(n) => n,
        None => {
            return Ok(Message::Unknown { kind, body });
        },
    };
    if body.len() != want {
        return Err(Error::WrongLength { kind, expected: want, got: body.len() });
    }
    Ok(
        match kind {
            // The hot path, first.
            T_PRICE_LEVEL_BUY | T_PRICE_LEVEL_SELL => Message::PriceLevel(
                PriceLevelUpdate {
                    side: if kind == T_PRICE_LEVEL_BUY {
                        Side::Buy
                    } else {
                        Side::Sell
                    },
                    flags: body[1],
                    timestamp: i64_le(body, 2),
                    symbol: symbol(body, 10),
                    size: u32_le(body, 18),
                    price: Price::from_raw(i64_le(body, 22)),
                },
            ),
            T_TRADE_REPORT | T_TRADE_BREAK => Message::Trade(
                Trade {
                    is_break: kind == T_TRADE_BREAK,
                    sale_condition: body[1],
                    timestamp: i64_le(body, 2),
                    symbol: symbol(body, 10),
                    size: u32_le(body, 18),
                    price: Price::from_raw(i64_le(body, 22)),
                    trade_id: i64_le(body, 30),
                },
            ),
            T_SYSTEM_EVENT => Message::SystemEvent(
                SystemEvent { event: body[1], timestamp: i64_le(body, 2) },
            ),
            T_SECURITY_DIRECTORY => Message::SecurityDirectory(
                SecurityDirectory {
                    flags: body[1],
                    timestamp: i64_le(body, 2),
                    symbol: symbol(body, 10),
                    round_lot_size: u32_le(body, 18),
                    adjusted_poc_price: Price::from_raw(i64_le(body, 22)),
                    luld_tier: body[30],
                },
            ),
            T_TRADING_STATUS => Message::TradingStatus(
                TradingStatus {
                    status: body[1],
                    timestamp: i64_le(body, 2),
                    symbol: symbol(body, 10),
                    reason: [body[18], body[19], body[20], body[21]],
                },
            ),
            T_OFFICIAL_PRICE => Message::OfficialPrice(
                OfficialPrice {
                    price_type: body[1],
                    timestamp: i64_le(body, 2),
                    symbol: symbol(body, 10),
                    price: Price::from_raw(i64_le(body, 18)),
                },
            ),
            T_AUCTION_INFORMATION => Message::Auction(AuctionInformation { body }),
            _ => {
                let status = SymbolStatus {
                    value: body[1],
                    timestamp: i64_le(body, 2),
                    symbol: symbol(body, 10),
                    detail: if kind == T_SHORT_SALE_PRICE_TEST {
                        body[18]
                    } else {
                        0
                    },
                };
                match kind {
                    T_OPERATIONAL_HALT => Message::OperationalHalt(status),
                    T_SECURITY_EVENT => Message::SecurityEvent(status),
                    _ => Message::ShortSalePriceTest(status),
                }
            },
        },
    )
}

}
