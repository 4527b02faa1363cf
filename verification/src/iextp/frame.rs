//! Stripping Ethernet/VLAN/IPv4/UDP down to the transport payload.
//!
//! IEX frames carry an 802.1Q VLAN tag, so a reader that assumes the IPv4 header
//! begins at the usual offset 14 lands four bytes early, in the middle of the
//! VLAN header, and misparses every packet in the file. The tag is detected
//! rather than assumed, because a capture from a different tap point may well
//! not have it.
//!
//! No allocation and no copying happens here: every function narrows a borrow of
//! the caller's buffer.
use vstd::prelude::*;
use vstd::slice::slice_subrange;

use crate::bytes::{be16, u16_be};

verus! {

/// EtherType marking an 802.1Q VLAN tag, whose 4 bytes precede the real type.
pub const ETHERTYPE_VLAN: u16 = 0x8100;

/// EtherType for IPv4.
pub const ETHERTYPE_IPV4: u16 = 0x0800;

/// IANA protocol number for UDP.
pub const IPPROTO_UDP: u8 = 17;

const ETH_HEADER_LEN: usize = 14;

const VLAN_TAG_LEN: usize = 4;

pub const UDP_HEADER_LEN: usize = 8;

/// Why a frame carried no transport payload.
///
/// These are *expected* outcomes on a real capture, not failures: a link carries
/// ARP, IPv6 and other traffic alongside the feed. The caller counts them and
/// moves on.
#[derive(Debug, Clone, Copy, PartialEq, Eq, Structural)]
pub enum FrameSkip {
    TooShort,
    NotIpv4,
    NotUdp,
    Fragmented,
}

/// A UDP datagram located inside an Ethernet frame.
#[derive(Debug, Clone, Copy)]
pub struct Datagram<'a> {
    pub src_port: u16,
    pub dst_port: u16,
    /// Destination IPv4 address, big-endian as it appears on the wire.
    ///
    /// The feed is multicast, so this identifies *which* multicast group, which
    /// is how the two sides of an A/B feed pair are told apart.
    pub dst_ip: [u8; 4],
    pub payload: &'a [u8],
}

/// A datagram with its payload as a byte string.
#[verifier::ext_equal]
pub struct DatagramView {
    pub src_port: u16,
    pub dst_port: u16,
    pub dst_ip: Seq<u8>,
    pub payload: Seq<u8>,
}

impl<'a> View for Datagram<'a> {
    type V = DatagramView;

    open spec fn view(&self) -> DatagramView {
        DatagramView {
            src_port: self.src_port,
            dst_port: self.dst_port,
            dst_ip: self.dst_ip@,
            payload: self.payload@,
        }
    }
}

/// The datagram in a frame, or why there is none.
pub open spec fn datagram(frame: Seq<u8>) -> Result<DatagramView, FrameSkip> {
    if frame.len() < 14 {
        Err(FrameSkip::TooShort)
    } else {
        tagged(frame.skip(12))
    }
}

/// The datagram in what follows the two link addresses: any number of VLAN
/// tags, then the real EtherType, then the network layer.
pub open spec fn tagged(s: Seq<u8>) -> Result<DatagramView, FrameSkip>
    decreases s.len(),
{
    if be16(s, 0) == ETHERTYPE_VLAN {
        if s.len() < 6 {
            Err(FrameSkip::TooShort)
        } else {
            tagged(s.skip(4))
        }
    } else if be16(s, 0) != ETHERTYPE_IPV4 {
        Err(FrameSkip::NotIpv4)
    } else {
        ipv4(s.skip(2))
    }
}

/// The datagram in an IPv4 packet. The header length is in 4-byte words in the
/// low nibble of the first byte; the fragment bits are the more-fragments flag
/// and a 13-bit offset.
pub open spec fn ipv4(ip: Seq<u8>) -> Result<DatagramView, FrameSkip> {
    let header = (ip[0] % 16) * 4;
    if ip.len() < 20 || header < 20 || ip.len() < header {
        Err(FrameSkip::TooShort)
    } else if ip[9] != IPPROTO_UDP {
        Err(FrameSkip::NotUdp)
    } else if (ip[6] / 32) % 2 == 1 || be16(ip, 6) % 0x2000 != 0 {
        Err(FrameSkip::Fragmented)
    } else {
        udp(ip.skip(header as int), ip.subrange(16, 20))
    }
}

/// The datagram in a UDP packet. Its own length field bounds it, not the frame:
/// short frames are padded, and the padding is not payload.
pub open spec fn udp(u: Seq<u8>, dst_ip: Seq<u8>) -> Result<DatagramView, FrameSkip> {
    if u.len() < 8 || be16(u, 4) < 8 || be16(u, 4) > u.len() {
        Err(FrameSkip::TooShort)
    } else {
        Ok(
            DatagramView {
                src_port: be16(u, 0) as u16,
                dst_port: be16(u, 2) as u16,
                dst_ip,
                payload: u.subrange(8, be16(u, 4)),
            },
        )
    }
}

/// Inserting a VLAN tag after the link addresses changes nothing.
pub proof fn law_vlan_tag_is_transparent(frame: Seq<u8>, tci: Seq<u8>)
    requires
        frame.len() >= 14,
        tci.len() == 2,
    ensures
        datagram(frame.take(12) + seq![0x81u8, 0x00u8] + tci + frame.skip(12)) == datagram(frame),
{
    let t = frame.take(12) + seq![0x81u8, 0x00u8] + tci + frame.skip(12);
    assert(t.skip(12) =~= seq![0x81u8, 0x00u8] + tci + frame.skip(12));
    assert(t.skip(12).skip(4) =~= frame.skip(12));
}

/// Bytes after the end of a datagram never become part of it.
pub proof fn law_padding_is_not_payload(frame: Seq<u8>, padding: Seq<u8>)
    requires
        datagram(frame) is Ok,
    ensures
        datagram(frame + padding) == datagram(frame),
{
    assert((frame + padding).skip(12) =~= frame.skip(12) + padding);
    lemma_tagged_padding(frame.skip(12), padding);
}

proof fn lemma_tagged_padding(s: Seq<u8>, padding: Seq<u8>)
    requires
        s.len() >= 2,
        tagged(s) is Ok,
    ensures
        tagged(s + padding) == tagged(s),
    decreases s.len(),
{
    if be16(s, 0) == ETHERTYPE_VLAN {
        assert((s + padding).skip(4) =~= s.skip(4) + padding);
        lemma_tagged_padding(s.skip(4), padding);
    } else {
        let ip = s.skip(2);
        let wide = ip + padding;
        assert((s + padding).skip(2) =~= wide);
        let header = (ip[0] % 16) * 4;
        assert(wide.subrange(16, 20) =~= ip.subrange(16, 20));
        assert(wide.skip(header as int) =~= ip.skip(header as int) + padding);
        let u = ip.skip(header as int);
        assert((u + padding).subrange(8, be16(u, 4)) =~= u.subrange(8, be16(u, 4)));
    }
}

/// Locate the UDP payload inside one Ethernet frame.
///
/// Returns `Err` when the frame simply is not feed traffic, which is routine.
pub fn parse<'a>(frame: &'a [u8]) -> (r: Result<Datagram<'a>, FrameSkip>)
    ensures
        match r {
            Ok(d) => datagram(frame@) == Ok::<DatagramView, FrameSkip>(d@),
            Err(e) => datagram(frame@) == Err::<DatagramView, FrameSkip>(e),
        },
{
    if frame.len() < ETH_HEADER_LEN {
        return Err(FrameSkip::TooShort);
    }
    // Walk past however many VLAN tags are stacked here. QinQ (two tags) is
    // legal and cheap to support.
    let mut off: usize = ETH_HEADER_LEN;
    let mut ethertype: u16 = u16_be(frame, 12);
    while ethertype == ETHERTYPE_VLAN
        invariant
            14 <= off <= frame@.len(),
            ethertype == be16(frame@.skip(off - 2), 0),
            tagged(frame@.skip(off - 2)) == datagram(frame@),
        decreases frame@.len() - off,
    {
        if frame.len() - off < VLAN_TAG_LEN {
            return Err(FrameSkip::TooShort);
        }
        ethertype = u16_be(frame, off + 2);
        assert(frame@.skip(off - 2).skip(4) =~= frame@.skip(off + 2));
        off = off + VLAN_TAG_LEN;
    }
    if ethertype != ETHERTYPE_IPV4 {
        return Err(FrameSkip::NotIpv4);
    }
    // IPv4. The header length is variable (options), so it must be read from the
    // low nibble of byte 0 rather than assumed to be 20.

    assert(frame@.skip(off - 2).skip(2) =~= frame@.skip(off as int));
    let ip = slice_subrange(frame, off, frame.len());
    assert(ip@ =~= frame@.skip(off as int));
    if ip.len() < 20 {
        return Err(FrameSkip::TooShort);
    }
    let header: usize = (ip[0] % 16) as usize * 4;
    if header < 20 || ip.len() < header {
        return Err(FrameSkip::TooShort);
    }
    if ip[9] != IPPROTO_UDP {
        return Err(FrameSkip::NotUdp);
    }
    // A fragmented datagram cannot be parsed from this frame alone. Silently
    // treating fragment 0 as a whole message would corrupt the stream, so it is
    // reported instead.

    if (ip[6] / 32) % 2 == 1 || u16_be(ip, 6) % 0x2000 != 0 {
        return Err(FrameSkip::Fragmented);
    }
    let dst_ip = [ip[16], ip[17], ip[18], ip[19]];
    assert(dst_ip@ =~= ip@.subrange(16, 20));
    let udp = slice_subrange(ip, header, ip.len());
    assert(udp@ =~= ip@.skip(header as int));
    if udp.len() < UDP_HEADER_LEN {
        return Err(FrameSkip::TooShort);
    }
    // Trust the UDP length field over the captured length.

    let udp_len: usize = u16_be(udp, 4) as usize;
    if udp_len < UDP_HEADER_LEN || udp_len > udp.len() {
        return Err(FrameSkip::TooShort);
    }
    Ok(
        Datagram {
            src_port: u16_be(udp, 0),
            dst_port: u16_be(udp, 2),
            dst_ip,
            payload: slice_subrange(udp, UDP_HEADER_LEN, udp_len),
        },
    )
}

}
