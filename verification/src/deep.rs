//! IEX DEEP 1.0 message decoding.
//!
//! DEEP is an aggregated-depth feed: it publishes the total displayed size at
//! each price level, rather than every individual order. That makes the book a
//! map from price to size, not an order-id graph.
//!
//! Every message is fixed width, one length per type, and the parser enforces
//! it:
//!
//! | type | bytes | | type | bytes |
//! |---|---|---|---|---|
//! | Price Level Update | 30 | | Trading Status | 22 |
//! | Trade Report / Break | 38 | | Short Sale Price Test | 19 |
//! | Auction Information | 80 | | Security Event / Op Halt | 18 |
//! | Security Directory | 31 | | System Event | 10 |
//! | Official Price | 26 | | | |
//!
//! Nothing allocates. Symbols are fixed 8-byte arrays and prices are integers.
use vstd::prelude::*;
use vstd::string::StringExecFns;

use crate::text::{decimal, hex, push_decimal, push_hex};

pub mod laws;
pub mod messages;
pub mod price;
pub mod symbol;

pub use messages::{
    expected_len, parse, AuctionInformation, Message, OfficialPrice, PriceLevelUpdate,
    SecurityDirectory, Side, SymbolStatus, SystemEvent, Timestamp, Trade, TradingStatus,
};
pub use price::{Price, UNITS_PER_DOLLAR};
pub use symbol::Symbol;

verus! {

/// A malformed message, as opposed to a merely unrecognised one.
///
/// An unknown message *type* is not an error: it is reported as
/// [`Message::Unknown`], because a capture may contain a newer message than this
/// decoder models and that should still be countable. A known type at the wrong
/// length is an error, because fixed-width messages that are not fixed-width
/// mean the framing above is wrong.
#[derive(Debug, Clone, Copy, PartialEq, Eq, Structural)]
pub enum Error {
    Empty,
    WrongLength { kind: u8, expected: usize, got: usize },
}

impl Error {
    /// The sentence [`Error::to_string`] writes.
    pub open spec fn sentence(self) -> Seq<char> {
        match self {
            Error::Empty => "empty message body"@,
            Error::WrongLength { kind, expected, got } => "message type 0x"@ + hex(kind) + " is "@
                + decimal(got as nat) + " bytes, expected "@ + decimal(expected as nat),
        }
    }

    /// What went wrong, in words.
    pub fn to_string(&self) -> (r: String)
        ensures
            r@ == self.sentence(),
    {
        let mut out = String::new();
        match *self {
            Error::Empty => {
                out.append("empty message body");
            },
            Error::WrongLength { kind, expected, got } => {
                out.append("message type 0x");
                push_hex(&mut out, kind);
                out.append(" is ");
                push_decimal(&mut out, got as u64);
                out.append(" bytes, expected ");
                push_decimal(&mut out, expected as u64);
            },
        }
        assert(out@ =~= self.sentence());
        out
    }
}


/// An error says what was there: which type, how long it was and how long it should
/// have been.
pub proof fn law_errors_say_what_was_there(kind: u8, expected: usize, got: usize)
    ensures
        Error::Empty.sentence() == "empty message body"@,
        (Error::WrongLength { kind, expected, got }).sentence() == "message type 0x"@ + hex(kind)
            + " is "@ + decimal(got as nat) + " bytes, expected "@ + decimal(expected as nat),
{
}

}
