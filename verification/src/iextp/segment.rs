//! The IEX-TP v1 segment: a 40-byte header followed by length-prefixed messages.
//!
//! Everything is little-endian, unlike the layers underneath it.
//!
//! Two properties of the format do real work downstream:
//!
//! * `message_count` may be zero. That is a heartbeat, and it is how the session
//!   stays live when a symbol is quiet. It is not an error and not a gap.
//! * `first_sequence` plus `message_count` gives the next expected sequence
//!   number, which is the entire basis of gap detection and of arbitrating two
//!   copies of the same feed.
use vstd::prelude::*;
use vstd::slice::slice_subrange;

use crate::bytes::{i64_le, le16, le32, les64, u16_le, u32_le};
use crate::iextp::Error;

verus! {

/// Length of the fixed segment header.
pub const HEADER_LEN: usize = 40;

/// `protocol` for DEEP.
pub const PROTOCOL_DEEP: u16 = 0x8004;

/// `protocol` for TOPS.
pub const PROTOCOL_TOPS: u16 = 0x8003;

/// A parsed IEX-TP segment, borrowing its message block.
#[derive(Debug, Clone, Copy)]
pub struct Segment<'a> {
    pub version: u8,
    pub protocol: u16,
    pub channel: u32,
    /// Changes when IEX restarts the feed; sequence numbers restart with it, so
    /// comparing sequences across a session change is meaningless.
    pub session: u32,
    pub message_count: u16,
    pub stream_offset: i64,
    pub first_sequence: i64,
    /// Feed send time, nanoseconds since the Unix epoch.
    pub send_time: i64,
    /// The length-prefixed message bodies, back to back.
    pub block: &'a [u8],
}

/// A segment with its message block as a byte string.
#[verifier::ext_equal]
pub struct SegmentView {
    pub version: u8,
    pub protocol: u16,
    pub channel: u32,
    pub session: u32,
    pub message_count: u16,
    pub stream_offset: i64,
    pub first_sequence: i64,
    pub send_time: i64,
    pub block: Seq<u8>,
}

impl<'a> View for Segment<'a> {
    type V = SegmentView;

    open spec fn view(&self) -> SegmentView {
        SegmentView {
            version: self.version,
            protocol: self.protocol,
            channel: self.channel,
            session: self.session,
            message_count: self.message_count,
            stream_offset: self.stream_offset,
            first_sequence: self.first_sequence,
            send_time: self.send_time,
            block: self.block@,
        }
    }
}

impl SegmentView {
    /// The message bodies the segment carries.
    pub open spec fn bodies(self) -> Seq<Seq<u8>> {
        bodies(self.block, self.message_count as nat)
    }

    /// The sequence number after this segment.
    pub open spec fn next_sequence(self) -> int {
        self.first_sequence + self.message_count
    }
}

/// The segment in a UDP payload, or why there is none.
pub open spec fn segment(p: Seq<u8>) -> Result<SegmentView, Error> {
    if p.len() < HEADER_LEN {
        Err(Error::Truncated { need: HEADER_LEN, got: p.len() as usize })
    } else if HEADER_LEN + le16(p, 12) > p.len() {
        Err(Error::Truncated { need: (HEADER_LEN + le16(p, 12)) as usize, got: p.len() as usize })
    } else {
        Ok(
            SegmentView {
                version: p[0],
                protocol: le16(p, 2) as u16,
                channel: le32(p, 4) as u32,
                session: le32(p, 8) as u32,
                message_count: le16(p, 14) as u16,
                stream_offset: les64(p, 16) as i64,
                first_sequence: les64(p, 24) as i64,
                send_time: les64(p, 32) as i64,
                block: p.subrange(HEADER_LEN as int, HEADER_LEN + le16(p, 12)),
            },
        )
    }
}

/// At most `count` length-prefixed bodies read off the front of a block. A
/// prefix that claims more than is left ends the walk.
pub open spec fn bodies(block: Seq<u8>, count: nat) -> Seq<Seq<u8>>
    decreases count,
{
    if count == 0 || block.len() < 2 || 2 + le16(block, 0) > block.len() {
        Seq::empty()
    } else {
        seq![block.subrange(2, 2 + le16(block, 0))] + bodies(
            block.skip(2 + le16(block, 0)),
            (count - 1) as nat,
        )
    }
}

/// A segment never yields more bodies than it announces.
pub proof fn law_bodies_never_exceed_the_count(block: Seq<u8>, count: nat)
    ensures
        bodies(block, count).len() <= count,
    decreases count,
{
    if count == 0 || block.len() < 2 || 2 + le16(block, 0) > block.len() {
    } else {
        law_bodies_never_exceed_the_count(block.skip(2 + le16(block, 0)), (count - 1) as nat);
    }
}

impl<'a> Segment<'a> {
    /// Parse a segment from a UDP payload.
    pub fn parse(payload: &'a [u8]) -> (r: Result<Segment<'a>, Error>)
        ensures
            match r {
                Ok(s) => segment(payload@) == Ok::<SegmentView, Error>(s@),
                Err(e) => segment(payload@) == Err::<SegmentView, Error>(e),
            },
    {
        if payload.len() < HEADER_LEN {
            return Err(Error::Truncated { need: HEADER_LEN, got: payload.len() });
        }
        let payload_len: usize = u16_le(payload, 12) as usize;
        let end: usize = HEADER_LEN + payload_len;
        if end > payload.len() {
            return Err(Error::Truncated { need: end, got: payload.len() });
        }
        Ok(
            Segment {
                version: payload[0],
                protocol: u16_le(payload, 2),
                channel: u32_le(payload, 4),
                session: u32_le(payload, 8),
                message_count: u16_le(payload, 14),
                stream_offset: i64_le(payload, 16),
                first_sequence: i64_le(payload, 24),
                send_time: i64_le(payload, 32),
                block: slice_subrange(payload, HEADER_LEN, end),
            },
        )
    }

    /// A segment carrying no messages, sent to keep the session alive.
    pub fn is_heartbeat(&self) -> (r: bool)
        ensures
            r == (self.message_count == 0),
    {
        self.message_count == 0
    }

    /// Sequence number the next segment on this channel should start at.
    pub fn next_sequence(&self) -> (r: i64)
        requires
            self@.next_sequence() <= i64::MAX,
        ensures
            r == self@.next_sequence(),
    {
        self.first_sequence + self.message_count as i64
    }

    /// Walk the length-prefixed message bodies.
    pub fn messages(&self) -> (r: Messages<'a>)
        ensures
            r@ == self@.bodies(),
            r.announced() == self.message_count,
    {
        let r = Messages { buf: self.block, pos: 0, remaining: self.message_count };
        assert(self.block@.skip(0) =~= self.block@);
        r
    }
}

/// A walk over the length-prefixed message bodies inside one segment.
pub struct Messages<'a> {
    buf: &'a [u8],
    pos: usize,
    remaining: u16,
}

impl<'a> View for Messages<'a> {
    type V = Seq<Seq<u8>>;

    /// The bodies still to come.
    closed spec fn view(&self) -> Seq<Seq<u8>> {
        bodies(self.buf@.skip(self.pos as int), self.remaining as nat)
    }
}

impl<'a> Messages<'a> {
    #[verifier::type_invariant]
    spec fn within(self) -> bool {
        self.pos <= self.buf@.len()
    }

    /// How many more bodies the segment header announced.
    pub closed spec fn announced(self) -> u16 {
        self.remaining
    }

    /// The next body, if there is one.
    pub fn next(&mut self) -> (r: Option<&'a [u8]>)
        ensures
            match r {
                Some(b) => old(self)@.len() > 0 && b@ == old(self)@[0] && final(self)@
                    == old(self)@.drop_first() && final(self).announced() == old(self).announced()
                    - 1,
                None => old(self)@.len() == 0 && *final(self) == *old(self),
            },
    {
        proof {
            use_type_invariant(&*self);
        }
        if self.remaining == 0 || self.buf.len() - self.pos < 2 {
            return None;
        }
        let len: usize = u16_le(self.buf, self.pos) as usize;
        let start: usize = self.pos + 2;
        if len > self.buf.len() - start {
            return None;
        }
        let end: usize = start + len;
        let ghost rest = self.buf@.skip(self.pos as int);
        self.pos = end;
        self.remaining = self.remaining - 1;
        proof {
            assert(rest.skip(2 + le16(rest, 0)) =~= self.buf@.skip(end as int));
            assert(rest.subrange(2, 2 + le16(rest, 0)) =~= self.buf@.subrange(
                start as int,
                end as int,
            ));
            assert(old(self)@.drop_first() =~= self@);
        }
        Some(slice_subrange(self.buf, start, end))
    }

    /// How many bodies may still come: at least none, at most what is left of the
    /// announced count.
    pub fn size_hint(&self) -> (r: (usize, Option<usize>))
        ensures
            r == (0usize, Some(self.announced() as usize)),
            self@.len() <= self.announced(),
    {
        proof {
            law_bodies_never_exceed_the_count(
                self.buf@.skip(self.pos as int),
                self.remaining as nat,
            );
        }
        (0, Some(self.remaining as usize))
    }
}

}
