//! One reader over both capture formats.
//!
//! IEX changed format between 2017 and 2018, and a downstream pipeline should not
//! have to know or care which it was handed. The format is decided by the first
//! four bytes and everything above this point sees one stream of [`Packet`].
//!
//! Sniffing is by magic rather than by file extension, because both formats are
//! distributed as `.pcap`.
use vstd::prelude::*;

use crate::bytes::{le32, u32_le};
use crate::iextp::pcap;
use crate::iextp::pcap::{Packet, PacketView, PcapReader, PcapView};
use crate::iextp::pcapng;
use crate::iextp::pcapng::{NgView, PcapNgReader};
use crate::iextp::Error;

verus! {

/// Which on-disk format a capture turned out to be.
#[derive(Debug, Clone, Copy, PartialEq, Eq, Structural)]
pub enum Format {
    /// libpcap 2.4, the classic format.
    Pcap,
    /// pcapng, block-structured.
    PcapNg,
}

/// A reader over a capture in either supported format.
pub enum Capture<'a> {
    Pcap(PcapReader<'a>),
    PcapNg(PcapNgReader<'a>),
}

/// Where a reader stands in its file.
#[verifier::ext_equal]
pub enum CaptureView {
    Pcap(PcapView),
    PcapNg(NgView),
}

impl<'a> View for Capture<'a> {
    type V = CaptureView;

    open spec fn view(&self) -> CaptureView {
        match *self {
            Capture::Pcap(r) => CaptureView::Pcap(r@),
            Capture::PcapNg(r) => CaptureView::PcapNg(r@),
        }
    }
}

/// A reader at the start of a capture in whichever format its first four bytes
/// announce, or why it cannot be read.
pub open spec fn opened(buf: Seq<u8>) -> Result<CaptureView, Error> {
    if buf.len() >= 4 && le32(buf, 0) == pcapng::BT_SECTION_HEADER {
        match pcapng::opened(buf) {
            Ok(r) => Ok(CaptureView::PcapNg(r)),
            Err(e) => Err(e),
        }
    } else {
        match pcap::opened(buf) {
            Ok(r) => Ok(CaptureView::Pcap(r)),
            Err(e) => Err(e),
        }
    }
}

/// Every packet in a capture; none if it cannot be read.
pub open spec fn packets_in(buf: Seq<u8>) -> Seq<PacketView> {
    match opened(buf) {
        Ok(c) => c.packets(),
        Err(_) => Seq::empty(),
    }
}

impl CaptureView {
    /// Every packet from the cursor on.
    pub open spec fn packets(self) -> Seq<PacketView> {
        match self {
            CaptureView::Pcap(r) => r.packets(),
            CaptureView::PcapNg(r) => r.packets(),
        }
    }

    /// The file being read.
    pub open spec fn buf(self) -> Seq<u8> {
        match self {
            CaptureView::Pcap(r) => r.buf,
            CaptureView::PcapNg(r) => r.buf,
        }
    }

    /// The cursor.
    pub open spec fn pos(self) -> int {
        match self {
            CaptureView::Pcap(r) => r.pos,
            CaptureView::PcapNg(r) => r.pos,
        }
    }
}

/// Packets take up room in the file they come from, so there are never more
/// than an eighth of its bytes of them.
pub proof fn lemma_packets_fit(c: CaptureView)
    requires
        0 <= c.pos() <= c.buf().len(),
    ensures
        c.packets().len() * 8 <= c.buf().len() - c.pos(),
    decreases c.buf().len() - c.pos(),
{
    match c {
        CaptureView::Pcap(r) => {
            if r.has_record() && r.captured() >= 0 {
                lemma_packets_fit(CaptureView::Pcap(r.advanced()));
            }
        },
        CaptureView::PcapNg(r) => {
            if r.has_block() {
                lemma_packets_fit(CaptureView::PcapNg(r.advanced()));
            }
        },
    }
}

impl<'a> Capture<'a> {
    /// The cursor is inside the file.
    pub open spec fn wf(self) -> bool {
        0 <= self@.pos() <= self@.buf().len()
    }

    /// Detect the format from the leading bytes and open the right reader.
    pub fn open(buf: &'a [u8]) -> (r: Result<Capture<'a>, Error>)
        ensures
            match r {
                Ok(c) => c.wf() && opened(buf@) == Ok::<CaptureView, Error>(c@),
                Err(e) => opened(buf@) == Err::<CaptureView, Error>(e),
            },
    {
        if buf.len() >= 4 {
            // pcapng's Section Header Block type is byte-order independent.
            if u32_le(buf, 0) == pcapng::BT_SECTION_HEADER {
                return match PcapNgReader::new(buf) {
                    Ok(r) => Ok(Capture::PcapNg(r)),
                    Err(e) => Err(e),
                };
            }
        }
        match PcapReader::new(buf) {
            Ok(r) => Ok(Capture::Pcap(r)),
            Err(e) => Err(e),
        }
    }

    pub fn format(&self) -> (r: Format)
        ensures
            r == (match self@ {
                CaptureView::Pcap(_) => Format::Pcap,
                CaptureView::PcapNg(_) => Format::PcapNg,
            }),
    {
        match self {
            Capture::Pcap(_) => Format::Pcap,
            Capture::PcapNg(_) => Format::PcapNg,
        }
    }

    /// Link-layer type. IEX captures are Ethernet (1).
    pub fn linktype(&self) -> (r: u32)
        ensures
            r == (match self@ {
                CaptureView::Pcap(p) => p.linktype,
                CaptureView::PcapNg(p) => p.linktype,
            }),
    {
        match self {
            Capture::Pcap(r) => r.link_type(),
            Capture::PcapNg(r) => r.link_type(),
        }
    }

    pub fn snaplen(&self) -> (r: u32)
        ensures
            r == (match self@ {
                CaptureView::Pcap(p) => p.snaplen,
                CaptureView::PcapNg(p) => p.snaplen,
            }),
    {
        match self {
            Capture::Pcap(r) => r.snap_length(),
            Capture::PcapNg(r) => r.snap_length(),
        }
    }

    /// The next packet, if there is one.
    pub fn next(&mut self) -> (r: Option<Packet<'a>>)
        requires
            old(self).wf(),
        ensures
            final(self).wf(),
            match r {
                Some(p) => old(self)@.packets().len() > 0 && p@ == old(self)@.packets()[0]
                    && final(self)@.packets() == old(self)@.packets().drop_first(),
                None => old(self)@.packets().len() == 0 && final(self)@.packets().len() == 0,
            },
    {
        let ghost before = self@.packets();
        let r = match self {
            Capture::Pcap(r) => r.next(),
            Capture::PcapNg(r) => r.next(),
        };
        proof {
            if let Some(p) = r {
                assert(before == seq![p@] + self@.packets());
                assert(before.drop_first() =~= self@.packets());
            }
        }
        r
    }
}

}
