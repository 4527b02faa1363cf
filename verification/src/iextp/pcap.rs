//! Classic pcap (libpcap 2.4) reading, borrowing rather than copying.
//!
//! Four magics exist and they encode two independent choices: byte order, and
//! whether the sub-second timestamp field counts microseconds or nanoseconds.
//! Reading a nanosecond file as microseconds silently inflates every timestamp
//! by 1000x, so all four are handled explicitly.
//!
//! The reader yields `&[u8]` into the caller's buffer. Nothing is allocated per
//! packet and nothing is copied.
use vstd::prelude::*;
use vstd::slice::slice_subrange;

use crate::bytes::{be32, le32, u32_be, u32_le};
use crate::iextp::Error;

verus! {

pub const GLOBAL_HEADER_LEN: usize = 24;

pub const RECORD_HEADER_LEN: usize = 16;

/// Ethernet II. IEX HIST captures are all linktype 1.
pub const LINKTYPE_ETHERNET: u32 = 1;

#[derive(Debug, Clone, Copy, PartialEq, Eq, Structural)]
pub enum Endian {
    Little,
    Big,
}

/// One captured frame.
#[derive(Debug, Clone, Copy)]
pub struct Packet<'a> {
    /// Capture timestamp in nanoseconds since the Unix epoch.
    ///
    /// Normalised on the way out, so callers never need to know whether the file
    /// stored microseconds or nanoseconds.
    pub ts_nanos: u64,
    /// Bytes actually captured. May be shorter than the frame on the wire when
    /// the capture used a snaplen.
    pub data: &'a [u8],
    /// Frame length on the wire. `data.len() < orig_len` means truncation.
    pub orig_len: u32,
}

/// A captured frame with its bytes as a byte string.
#[verifier::ext_equal]
pub struct PacketView {
    pub ts_nanos: u64,
    pub data: Seq<u8>,
    pub orig_len: u32,
}

impl<'a> View for Packet<'a> {
    type V = PacketView;

    open spec fn view(&self) -> PacketView {
        PacketView { ts_nanos: self.ts_nanos, data: self.data@, orig_len: self.orig_len }
    }
}

/// The 32-bit number at `o` in the given byte order.
pub open spec fn word(b: Seq<u8>, o: int, endian: Endian) -> int {
    match endian {
        Endian::Little => le32(b, o),
        Endian::Big => be32(b, o),
    }
}

/// Where a reader stands in its file.
#[verifier::ext_equal]
pub struct PcapView {
    pub buf: Seq<u8>,
    pub pos: int,
    pub endian: Endian,
    pub nanos: bool,
    pub linktype: u32,
    pub snaplen: u32,
}

/// The byte order and timestamp unit a magic number stands for.
pub open spec fn magic(m: int) -> Option<(Endian, bool)> {
    if m == 0xa1b2_c3d4 {
        Some((Endian::Big, false))
    } else if m == 0xa1b2_3c4d {
        Some((Endian::Big, true))
    } else if m == 0xd4c3_b2a1 {
        Some((Endian::Little, false))
    } else if m == 0x4d3c_b2a1 {
        Some((Endian::Little, true))
    } else {
        None
    }
}

/// A reader at the first record of a file, or why the file cannot be read.
pub open spec fn opened(buf: Seq<u8>) -> Result<PcapView, Error> {
    if buf.len() < GLOBAL_HEADER_LEN {
        Err(Error::Truncated { need: GLOBAL_HEADER_LEN, got: buf.len() as usize })
    } else {
        match magic(be32(buf, 0)) {
            None => Err(Error::BadMagic(be32(buf, 0) as u32)),
            Some((endian, nanos)) => Ok(
                PcapView {
                    buf,
                    pos: GLOBAL_HEADER_LEN as int,
                    endian,
                    nanos,
                    linktype: word(buf, 20, endian) as u32,
                    snaplen: word(buf, 16, endian) as u32,
                },
            ),
        }
    }
}

impl PcapView {
    /// How many bytes the record at the cursor says it holds.
    pub open spec fn captured(self) -> int {
        word(self.buf, self.pos + 8, self.endian)
    }

    /// Whether a whole record is left. A record claiming more bytes than remain
    /// means the file was cut short mid-write, which ends the walk.
    pub open spec fn has_record(self) -> bool {
        &&& self.pos + RECORD_HEADER_LEN <= self.buf.len()
        &&& self.pos + RECORD_HEADER_LEN + self.captured() <= self.buf.len()
    }

    /// The record at the cursor. The sub-second field is scaled to nanoseconds.
    pub open spec fn record(self) -> PacketView {
        let sec = word(self.buf, self.pos, self.endian);
        let frac = word(self.buf, self.pos + 4, self.endian);
        let start = self.pos + RECORD_HEADER_LEN;
        PacketView {
            ts_nanos: (sec * 1_000_000_000 + if self.nanos {
                frac
            } else {
                frac * 1_000
            }) as u64,
            data: self.buf.subrange(start, start + self.captured()),
            orig_len: word(self.buf, self.pos + 12, self.endian) as u32,
        }
    }

    /// The reader after the record at the cursor.
    pub open spec fn advanced(self) -> PcapView {
        PcapView { pos: self.pos + RECORD_HEADER_LEN + self.captured(), ..self }
    }

    /// Every packet from the cursor on.
    pub open spec fn packets(self) -> Seq<PacketView>
        decreases self.buf.len() - self.pos,
    {
        if self.has_record() && self.captured() >= 0 {
            seq![self.record()] + self.advanced().packets()
        } else {
            Seq::empty()
        }
    }
}

/// A borrowed reader over a whole pcap file.
pub struct PcapReader<'a> {
    buf: &'a [u8],
    pos: usize,
    endian: Endian,
    nanos: bool,
    pub linktype: u32,
    pub snaplen: u32,
}

impl<'a> View for PcapReader<'a> {
    type V = PcapView;

    closed spec fn view(&self) -> PcapView {
        PcapView {
            buf: self.buf@,
            pos: self.pos as int,
            endian: self.endian,
            nanos: self.nanos,
            linktype: self.linktype,
            snaplen: self.snaplen,
        }
    }
}

/// Read a 32-bit number in the given byte order.
fn read_word(b: &[u8], off: usize, endian: Endian) -> (r: u32)
    requires
        off + 4 <= b.len(),
    ensures
        r == word(b@, off as int, endian),
{
    match endian {
        Endian::Little => u32_le(b, off),
        Endian::Big => u32_be(b, off),
    }
}

impl<'a> PcapReader<'a> {
    /// The cursor is inside the file.
    pub open spec fn wf(self) -> bool {
        0 <= self@.pos <= self@.buf.len()
    }

    /// Validate the global header and position at the first record.
    pub fn new(buf: &'a [u8]) -> (r: Result<PcapReader<'a>, Error>)
        ensures
            match r {
                Ok(p) => p.wf() && opened(buf@) == Ok::<PcapView, Error>(p@),
                Err(e) => opened(buf@) == Err::<PcapView, Error>(e),
            },
    {
        if buf.len() < GLOBAL_HEADER_LEN {
            return Err(Error::Truncated { need: GLOBAL_HEADER_LEN, got: buf.len() });
        }
        let (endian, nanos) = match u32_be(buf, 0) {
            0xa1b2_c3d4 => (Endian::Big, false),
            0xa1b2_3c4d => (Endian::Big, true),
            0xd4c3_b2a1 => (Endian::Little, false),
            0x4d3c_b2a1 => (Endian::Little, true),
            other => {
                return Err(Error::BadMagic(other));
            },
        };
        Ok(
            PcapReader {
                buf,
                pos: GLOBAL_HEADER_LEN,
                endian,
                nanos,
                linktype: read_word(buf, 20, endian),
                snaplen: read_word(buf, 16, endian),
            },
        )
    }

    /// Bytes consumed so far, used to report throughput.
    pub fn position(&self) -> (r: usize)
        ensures
            r == self@.pos,
    {
        self.pos
    }

    /// The link-layer type from the global header.
    pub fn link_type(&self) -> (r: u32)
        ensures
            r == self@.linktype,
    {
        self.linktype
    }

    /// The snapshot length from the global header.
    pub fn snap_length(&self) -> (r: u32)
        ensures
            r == self@.snaplen,
    {
        self.snaplen
    }

    /// The next packet, if a whole one is left.
    pub fn next(&mut self) -> (r: Option<Packet<'a>>)
        requires
            old(self).wf(),
        ensures
            final(self).wf(),
            match r {
                Some(p) => old(self)@.has_record() && p@ == old(self)@.record() && final(self)@
                    == old(self)@.advanced() && old(self)@.packets() == seq![p@]
                    + final(self)@.packets(),
                None => !old(self)@.has_record() && *final(self) == *old(self) && old(
                    self,
                )@.packets().len() == 0,
            },
    {
        if self.buf.len() - self.pos < RECORD_HEADER_LEN {
            return None;
        }
        let ts_sec: u64 = read_word(self.buf, self.pos, self.endian) as u64;
        let ts_frac: u64 = read_word(self.buf, self.pos + 4, self.endian) as u64;
        let incl: usize = read_word(self.buf, self.pos + 8, self.endian) as usize;
        let orig_len: u32 = read_word(self.buf, self.pos + 12, self.endian);
        let start: usize = self.pos + RECORD_HEADER_LEN;
        if incl > self.buf.len() - start {
            return None;
        }
        let end: usize = start + incl;
        self.pos = end;
        let ts_nanos: u64 = ts_sec * 1_000_000_000 + if self.nanos {
            ts_frac
        } else {
            ts_frac * 1_000
        };
        Some(Packet { ts_nanos, data: slice_subrange(self.buf, start, end), orig_len })
    }
}


/// What a reader says of its file is what it holds of it.
proof fn law_a_reader_is_its_fields(r: PcapReader<'_>)
    ensures
        r@.linktype == r.linktype,
        r@.snaplen == r.snaplen,
{
}

}
