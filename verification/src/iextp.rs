//! IEX-TP v1 transport: capture framing, segment sequencing, A/B feed arbitration.
//!
//! Market data arrives as UDP multicast, it is published twice down separate
//! paths, packets are reordered and dropped, and a receiver has to reconcile all
//! of that before a single book update is correct.
//!
//! The stack, outermost first:
//!
//! ```text
//!   capture record       pcap or pcapng, timestamps in us or ns   [capture]
//!     Ethernet II        + 802.1Q VLAN tag on every IEX frame     [frame]
//!       IPv4             variable header length, multicast dst    [frame]
//!         UDP            length field, not the frame length       [frame]
//!           IEX-TP       40-byte header, LITTLE-endian            [segment]
//!             messages   u16 length prefix each                   [segment]
//! ```
//!
//! Byte order flips at the IEX-TP boundary: everything above it is big-endian,
//! everything from it down is little-endian.
//!
//! Nothing here allocates per packet. Every layer narrows a borrow of the mapped
//! file, so a message body is a subslice of the file itself.
use vstd::prelude::*;
use vstd::string::StringExecFns;

use crate::text::{decimal, hex, push_decimal, push_hex};

pub mod arbitration;
pub mod blocks;
pub mod capture;
pub mod frame;
pub mod layout;
pub mod ledger;
pub mod pcap;
pub mod pcapng;
pub mod recording;
pub mod segment;
pub mod sequencer;

pub use capture::{Capture, Format};
pub use frame::{Datagram, FrameSkip};

pub use pcap::{Packet, PcapReader, LINKTYPE_ETHERNET};
pub use pcapng::PcapNgReader;
pub use segment::{Segment, HEADER_LEN, PROTOCOL_DEEP, PROTOCOL_TOPS};
pub use sequencer::{Action, Sequencer, Stats};

verus! {

/// Errors that mean the input is malformed, as opposed to merely uninteresting.
///
/// Frames that are not feed traffic are reported through [`FrameSkip`] instead:
/// a capture legitimately contains ARP and IPv6 alongside the feed, and treating
/// that as an error would drown the real ones.
#[derive(Debug, Clone, Copy, PartialEq, Eq, Structural)]
pub enum Error {
    BadMagic(u32),
    Truncated { need: usize, got: usize },
}

/// A 32-bit number as eight hexadecimal digits.
pub open spec fn hex32(v: u32) -> Seq<char> {
    hex((v / 0x100_0000) as u8) + hex((v / 0x1_0000 % 0x100) as u8) + hex(
        (v / 0x100 % 0x100) as u8,
    ) + hex((v % 0x100) as u8)
}

impl Error {
    /// The sentence [`Error::to_string`] writes.
    pub open spec fn sentence(self) -> Seq<char> {
        match self {
            Error::BadMagic(m) => "not a pcap file: magic 0x"@ + hex32(m),
            Error::Truncated { need, got } => "truncated: needed "@ + decimal(need as nat)
                + " bytes, have "@ + decimal(got as nat),
        }
    }

    /// What went wrong, in words.
    pub fn to_string(&self) -> (r: String)
        ensures
            r@ == self.sentence(),
    {
        let mut out = String::new();
        match *self {
            Error::BadMagic(m) => {
                out.append("not a pcap file: magic 0x");
                push_hex(&mut out, (m / 0x100_0000) as u8);
                push_hex(&mut out, (m / 0x1_0000 % 0x100) as u8);
                push_hex(&mut out, (m / 0x100 % 0x100) as u8);
                push_hex(&mut out, (m % 0x100) as u8);
            },
            Error::Truncated { need, got } => {
                out.append("truncated: needed ");
                push_decimal(&mut out, need as u64);
                out.append(" bytes, have ");
                push_decimal(&mut out, got as u64);
            },
        }
        assert(out@ =~= self.sentence());
        out
    }
}

/// The segment a frame carries, if it carries one.
pub open spec fn carried(bytes: Seq<u8>) -> Option<(Seq<u8>, segment::SegmentView)> {
    match frame::datagram(bytes) {
        Err(_) => None,
        Ok(d) => match segment::segment(d.payload) {
            Err(_) => None,
            Ok(s) => Some((d.payload, s)),
        },
    }
}


/// A 32-bit number in hexadecimal is its four bytes, the highest first.
pub proof fn law_magic_numbers_show_their_bytes(v: u32, a: u8, b: u8, c: u8, d: u8)
    requires
        v == 0x100_0000 * a + 0x1_0000 * b + 0x100 * c + d,
    ensures
        hex32(v) == hex(a) + hex(b) + hex(c) + hex(d),
{
    lemma_four_bytes(v as int, a as int, b as int, c as int, d as int);
    assert(hex32(v) == hex(a) + hex(b) + hex(c) + hex(d));
}

/// Dividing by a place leaves the bytes above it.
proof fn lemma_four_bytes(v: int, a: int, b: int, c: int, d: int)
    requires
        v == 0x100_0000 * a + 0x1_0000 * b + 0x100 * c + d,
        0 <= a < 0x100,
        0 <= b < 0x100,
        0 <= c < 0x100,
        0 <= d < 0x100,
    ensures
        v / 0x100_0000 == a,
        v / 0x1_0000 % 0x100 == b,
        v / 0x100 % 0x100 == c,
        v % 0x100 == d,
{
    let x = 0x1_0000 * a + 0x100 * b + c;
    let y = 0x100 * a + b;
    assert(v / 0x100 == x);
    assert(v / 0x1_0000 == y);
}

/// An error says what was there: the number in place of a magic one, or how much was
/// needed and how much there was.
pub proof fn law_errors_say_what_was_there(m: u32, need: usize, got: usize)
    ensures
        Error::BadMagic(m).sentence() == "not a pcap file: magic 0x"@ + hex32(m),
        (Error::Truncated { need, got }).sentence() == "truncated: needed "@ + decimal(need as nat)
            + " bytes, have "@ + decimal(got as nat),
{
}

}
