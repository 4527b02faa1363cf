//! What reading the transport guarantees, said of bytes laid out layer by layer.
//!
//! Each writer here lays a layer out field after field, and each law says what
//! reading makes of it, of anything cut from it and of anything put behind it.
use vstd::prelude::*;

use super::frame::{datagram, ipv4, tagged, udp, DatagramView, FrameSkip};
use super::segment::{bodies, segment, SegmentView};
use super::Error;
use crate::bytes::{
    be16, be16_bytes, le16, le16_bytes, le32, le32_bytes, lemma_le16_round_trip,
    lemma_le32_round_trip, lemma_les64_round_trip, lemma_reads_are_local, les64, les64_bytes,
};

verus! {

/// A 16-bit number read where it was laid out.
proof fn lemma_le16_at(b: Seq<u8>, o: int, x: int)
    requires
        0 <= x < 0x1_0000,
        0 <= o,
        o + 2 <= b.len(),
        b.subrange(o, o + 2) == le16_bytes(x),
    ensures
        le16(b, o) == x,
{
    lemma_le16_round_trip(x);
    assert(le16_bytes(x).subrange(0, 2) =~= le16_bytes(x));
    lemma_reads_are_local(b, le16_bytes(x), o, 0, 2);
}

proof fn lemma_le32_at(b: Seq<u8>, o: int, x: int)
    requires
        0 <= x < 0x1_0000_0000,
        0 <= o,
        o + 4 <= b.len(),
        b.subrange(o, o + 4) == le32_bytes(x),
    ensures
        le32(b, o) == x,
{
    lemma_le32_round_trip(x);
    assert(le32_bytes(x).subrange(0, 4) =~= le32_bytes(x));
    lemma_reads_are_local(b, le32_bytes(x), o, 0, 4);
}

proof fn lemma_les64_at(b: Seq<u8>, o: int, x: int)
    requires
        i64::MIN <= x <= i64::MAX,
        0 <= o,
        o + 8 <= b.len(),
        b.subrange(o, o + 8) == les64_bytes(x),
    ensures
        les64(b, o) == x,
{
    lemma_les64_round_trip(x);
    assert(les64_bytes(x).subrange(0, 8) =~= les64_bytes(x));
    lemma_reads_are_local(b, les64_bytes(x), o, 0, 8);
}

/// A segment's forty bytes of header: version and a reserved byte, protocol, channel,
/// session, how long the block is, how many messages it holds, and the three 64-bit
/// numbers.
pub open spec fn header_of(s: SegmentView, reserved: u8) -> Seq<u8> {
    seq![s.version, reserved] + le16_bytes(s.protocol as int) + le32_bytes(s.channel as int)
        + le32_bytes(s.session as int) + le16_bytes(s.block.len() as int) + le16_bytes(
        s.message_count as int,
    ) + les64_bytes(s.stream_offset as int) + les64_bytes(s.first_sequence as int) + les64_bytes(
        s.send_time as int,
    )
}

proof fn lemma_header_of(s: SegmentView, reserved: u8)
    requires
        s.block.len() <= 0xffff,
    ensures
        ({
            let h = header_of(s, reserved);
            &&& h.len() == 40
            &&& h[0] == s.version
            &&& le16(h, 2) == s.protocol
            &&& le32(h, 4) == s.channel
            &&& le32(h, 8) == s.session
            &&& le16(h, 12) == s.block.len()
            &&& le16(h, 14) == s.message_count
            &&& les64(h, 16) == s.stream_offset
            &&& les64(h, 24) == s.first_sequence
            &&& les64(h, 32) == s.send_time
        }),
{
    let h = header_of(s, reserved);
    let n = s.block.len() as int;
    lemma_le16_round_trip(s.protocol as int);
    lemma_le32_round_trip(s.channel as int);
    lemma_le32_round_trip(s.session as int);
    lemma_le16_round_trip(n);
    lemma_le16_round_trip(s.message_count as int);
    lemma_les64_round_trip(s.stream_offset as int);
    lemma_les64_round_trip(s.first_sequence as int);
    lemma_les64_round_trip(s.send_time as int);
    assert(h.subrange(2, 4) =~= le16_bytes(s.protocol as int));
    assert(h.subrange(4, 8) =~= le32_bytes(s.channel as int));
    assert(h.subrange(8, 12) =~= le32_bytes(s.session as int));
    assert(h.subrange(12, 14) =~= le16_bytes(n));
    assert(h.subrange(14, 16) =~= le16_bytes(s.message_count as int));
    assert(h.subrange(16, 24) =~= les64_bytes(s.stream_offset as int));
    assert(h.subrange(24, 32) =~= les64_bytes(s.first_sequence as int));
    assert(h.subrange(32, 40) =~= les64_bytes(s.send_time as int));
    lemma_le16_at(h, 2, s.protocol as int);
    lemma_le32_at(h, 4, s.channel as int);
    lemma_le32_at(h, 8, s.session as int);
    lemma_le16_at(h, 12, n);
    lemma_le16_at(h, 14, s.message_count as int);
    lemma_les64_at(h, 16, s.stream_offset as int);
    lemma_les64_at(h, 24, s.first_sequence as int);
    lemma_les64_at(h, 32, s.send_time as int);
}

/// Reading looks no further than what it reads.
proof fn lemma_front_reads(h: Seq<u8>, rest: Seq<u8>, o: int)
    requires
        0 <= o,
    ensures
        o + 2 <= h.len() ==> le16(h + rest, o) == le16(h, o),
        o + 4 <= h.len() ==> le32(h + rest, o) == le32(h, o),
        o + 8 <= h.len() ==> les64(h + rest, o) == les64(h, o),
{
}

/// A segment reads back whatever its fields are, and whatever stands behind it.
pub proof fn law_every_segment_reads_back(s: SegmentView, reserved: u8, behind: Seq<u8>)
    requires
        s.block.len() <= 0xffff,
    ensures
        segment(header_of(s, reserved) + s.block + behind) == Ok::<SegmentView, Error>(s),
{
    let h = header_of(s, reserved);
    let rest = s.block + behind;
    let p = h + s.block + behind;
    lemma_header_of(s, reserved);
    assert(p =~= h + rest);
    lemma_front_reads(h, rest, 2);
    lemma_front_reads(h, rest, 4);
    lemma_front_reads(h, rest, 8);
    lemma_front_reads(h, rest, 12);
    lemma_front_reads(h, rest, 14);
    lemma_front_reads(h, rest, 16);
    lemma_front_reads(h, rest, 24);
    lemma_front_reads(h, rest, 32);
    assert(p.subrange(40, (40 + s.block.len()) as int) =~= s.block);
}

/// A segment that was cut short is refused, and the error says how much of it there
/// would have to be: its header, or all of it once the header is there.
pub proof fn law_a_cut_segment_is_refused(s: SegmentView, reserved: u8, n: int)
    requires
        s.block.len() <= 0xffff,
        0 <= n < 40 + s.block.len(),
    ensures
        segment((header_of(s, reserved) + s.block).take(n)) == Err::<SegmentView, Error>(
            Error::Truncated {
                need: if n < 40 {
                    40
                } else {
                    (40 + s.block.len()) as usize
                },
                got: n as usize,
            },
        ),
{
    let h = header_of(s, reserved);
    let p = (h + s.block).take(n);
    lemma_header_of(s, reserved);
    assert(p.len() == n);
    if n >= 40 {
        assert(p =~= h + s.block.take(n - 40));
        lemma_front_reads(h, s.block.take(n - 40), 12);
    }
}

/// A segment's messages are numbered on from its first, and the next segment's from
/// where they end.
pub proof fn law_numbers_run_on(s: SegmentView, k: int)
    requires
        0 <= k < s.message_count,
    ensures
        s.first_sequence + k < s.next_sequence(),
        s.next_sequence() == s.first_sequence + s.message_count,
        s.bodies() == bodies(s.block, s.message_count as nat),
{
}

/// Message bodies back to back, each with its length in front.
pub open spec fn packed(bs: Seq<Seq<u8>>) -> Seq<u8>
    decreases bs.len(),
{
    if bs.len() == 0 {
        Seq::empty()
    } else {
        le16_bytes(bs[0].len() as int) + bs[0] + packed(bs.drop_first())
    }
}

/// Too little for another body: no room for a length, or not for what it claims.
pub open spec fn stub(rest: Seq<u8>) -> bool {
    rest.len() < 2 || rest.len() < 2 + rest[0] + 256 * rest[1]
}

/// A segment's bodies are those packed into its block, whatever is in them: as many as
/// it announces, or as many as there are.
pub proof fn law_bodies_are_those_packed(bs: Seq<Seq<u8>>, rest: Seq<u8>, count: nat)
    requires
        forall|i: int| 0 <= i < bs.len() ==> (#[trigger] bs[i]).len() <= 0xffff,
        count <= bs.len() || stub(rest),
    ensures
        bodies(packed(bs) + rest, count) == if count <= bs.len() {
            bs.take(count as int)
        } else {
            bs
        },
    decreases bs.len(),
{
    let b = packed(bs) + rest;
    if bs.len() == 0 {
        assert(b =~= rest);
        assert(bs.take(0) =~= bs);
        assert(bodies(b, count) =~= bs);
    } else if count == 0 {
        assert(bs.take(0) =~= Seq::empty());
    } else {
        let n = bs[0].len() as int;
        let more = bs.drop_first();
        lemma_le16_round_trip(n);
        assert(b.subrange(0, 2) =~= le16_bytes(n));
        lemma_le16_at(b, 0, n);
        assert(b.subrange(2, 2 + n) =~= bs[0]);
        assert(b.skip(2 + n) =~= packed(more) + rest);
        law_bodies_are_those_packed(more, rest, (count - 1) as nat);
        let want = if count <= bs.len() {
            bs.take(count as int)
        } else {
            bs
        };
        let tail = if count - 1 <= more.len() {
            more.take(count - 1)
        } else {
            more
        };
        assert(seq![bs[0]] + tail =~= want);
    }
}

/// VLAN tags, one after the other.
pub open spec fn tags(tcis: Seq<(u8, u8)>) -> Seq<u8>
    decreases tcis.len(),
{
    if tcis.len() == 0 {
        Seq::empty()
    } else {
        seq![0x81u8, 0x00, tcis[0].0, tcis[0].1] + tags(tcis.drop_first())
    }
}

/// What an IPv4 header says, and the bytes no reader looks at.
pub struct Route {
    /// The version nibble.
    pub version: int,
    /// Service, total length and identification.
    pub before: Seq<u8>,
    /// Reserved, don't-fragment and more-fragments bits.
    pub flags: int,
    /// Fragment offset.
    pub offset: int,
    pub ttl: u8,
    pub protocol: u8,
    pub checksum: Seq<u8>,
    pub src: Seq<u8>,
    pub dst: Seq<u8>,
    /// Options, in 4-byte words.
    pub options: Seq<u8>,
}

impl Route {
    /// Every part has its width.
    pub open spec fn fits(self) -> bool {
        &&& 0 <= self.version < 16
        &&& self.before.len() == 5
        &&& 0 <= self.flags < 8
        &&& 0 <= self.offset < 0x2000
        &&& self.checksum.len() == 2
        &&& self.src.len() == 4
        &&& self.dst.len() == 4
        &&& self.options.len() % 4 == 0
        &&& self.options.len() <= 40
    }

    /// The header: length in words beside the version, flags above the offset.
    pub open spec fn bytes(self) -> Seq<u8> {
        seq![(self.version * 16 + 5 + self.options.len() / 4) as u8] + self.before + be16_bytes(
            self.flags * 0x2000 + self.offset,
        ) + seq![self.ttl, self.protocol] + self.checksum + self.src + self.dst + self.options
    }

    /// Not part of a larger datagram: no more fragments to come and none before.
    pub open spec fn whole(self) -> bool {
        self.flags % 2 == 0 && self.offset == 0
    }
}

/// A UDP packet.
pub open spec fn datagram_bytes(src: u16, dst: u16, checksum: Seq<u8>, payload: Seq<u8>) -> Seq<u8> {
    be16_bytes(src as int) + be16_bytes(dst as int) + be16_bytes((8 + payload.len()) as int) + checksum
        + payload
}

proof fn lemma_route(r: Route, rest: Seq<u8>)
    requires
        r.fits(),
    ensures
        ({
            let ip = r.bytes() + rest;
            let n = 20 + r.options.len();
            &&& r.bytes().len() == n
            &&& (ip[0] % 16) * 4 == n
            &&& ip[9] == r.protocol
            &&& (ip[6] / 32) % 2 == r.flags % 2
            &&& be16(ip, 6) % 0x2000 == r.offset
            &&& ip.subrange(16, 20) == r.dst
            &&& ip.skip(n as int) == rest
        }),
{
    let h = r.bytes();
    let ip = h + rest;
    let n = 20 + r.options.len();
    let f = r.flags * 0x2000 + r.offset;
    assert(h.len() == n);
    assert(ip[6] == be16_bytes(f)[0] && ip[7] == be16_bytes(f)[1]);
    assert(0 <= f < 0x1_0000);
    lemma_le16_round_trip(f);
    assert(be16(ip, 6) == f);
    assert(f % 0x2000 == r.offset);
    assert(ip[6] == f / 0x100);
    assert((f / 0x100) / 32 == r.flags);
    assert(ip[0] == (r.version * 16 + 5 + r.options.len() / 4) as u8);
    assert(ip.subrange(16, 20) =~= r.dst);
    assert(ip.skip(n as int) =~= rest);
}

proof fn lemma_udp(src: u16, dst: u16, checksum: Seq<u8>, payload: Seq<u8>, behind: Seq<u8>, ip: Seq<u8>)
    requires
        checksum.len() == 2,
        payload.len() <= 0xffff - 8,
    ensures
        udp(datagram_bytes(src, dst, checksum, payload) + behind, ip) == Ok::<
            DatagramView,
            FrameSkip,
        >(DatagramView { src_port: src, dst_port: dst, dst_ip: ip, payload }),
        datagram_bytes(src, dst, checksum, payload).len() == 8 + payload.len(),
        be16(datagram_bytes(src, dst, checksum, payload), 4) == 8 + payload.len(),
{
    let d = datagram_bytes(src, dst, checksum, payload);
    let u = d + behind;
    let n = 8 + payload.len();
    lemma_le16_round_trip(src as int);
    lemma_le16_round_trip(dst as int);
    lemma_le16_round_trip(n as int);
    assert(u[0] == be16_bytes(src as int)[0] && u[1] == be16_bytes(src as int)[1]);
    assert(u[2] == be16_bytes(dst as int)[0] && u[3] == be16_bytes(dst as int)[1]);
    assert(u[4] == be16_bytes(n as int)[0] && u[5] == be16_bytes(n as int)[1]);
    assert(d[4] == u[4] && d[5] == u[5]);
    assert(u.subrange(8, n as int) =~= payload);
}

proof fn lemma_tags(tcis: Seq<(u8, u8)>, rest: Seq<u8>)
    requires
        rest.len() >= 2,
    ensures
        tagged(tags(tcis) + rest) == tagged(rest),
        tags(tcis).len() == 4 * tcis.len(),
    decreases tcis.len(),
{
    let s = tags(tcis) + rest;
    if tcis.len() == 0 {
        assert(s =~= rest);
    } else {
        lemma_tags(tcis.drop_first(), rest);
        assert(be16(s, 0) == 0x8100);
        assert(s.skip(4) =~= tags(tcis.drop_first()) + rest);
    }
}

/// Addresses, tags and an EtherType in front of a packet.
pub open spec fn link(addresses: Seq<u8>, tcis: Seq<(u8, u8)>, ethertype: u16) -> Seq<u8> {
    addresses + tags(tcis) + be16_bytes(ethertype as int)
}

proof fn lemma_link(addresses: Seq<u8>, tcis: Seq<(u8, u8)>, ethertype: u16, ip: Seq<u8>)
    requires
        addresses.len() == 12,
        ethertype != 0x8100,
    ensures
        datagram(link(addresses, tcis, ethertype) + ip) == if ethertype == 0x0800 {
            ipv4(ip)
        } else {
            Err::<DatagramView, FrameSkip>(FrameSkip::NotIpv4)
        },
        link(addresses, tcis, ethertype).len() == 14 + 4 * tcis.len(),
{
    let f = link(addresses, tcis, ethertype) + ip;
    let typed = be16_bytes(ethertype as int) + ip;
    lemma_le16_round_trip(ethertype as int);
    lemma_tags(tcis, typed);
    assert(f.skip(12) =~= tags(tcis) + typed);
    assert(typed[0] == be16_bytes(ethertype as int)[0]);
    assert(typed[1] == be16_bytes(ethertype as int)[1]);
    assert(be16(typed, 0) == ethertype);
    assert(typed.skip(2) =~= ip);
}

/// A frame that carries a whole UDP datagram yields it: its ports, its destination and
/// exactly its payload, however many tags stand in front, however long the IPv4 header
/// is and whatever is behind.
pub proof fn law_a_frame_yields_its_datagram(
    addresses: Seq<u8>,
    tcis: Seq<(u8, u8)>,
    r: Route,
    src: u16,
    dst: u16,
    checksum: Seq<u8>,
    payload: Seq<u8>,
    behind: Seq<u8>,
)
    requires
        addresses.len() == 12,
        r.fits(),
        r.whole(),
        r.protocol == 17,
        checksum.len() == 2,
        payload.len() <= 0xffff - 8,
    ensures
        datagram(
            link(addresses, tcis, 0x0800) + (r.bytes() + (datagram_bytes(
                src,
                dst,
                checksum,
                payload,
            ) + behind)),
        ) == Ok::<DatagramView, FrameSkip>(
            DatagramView { src_port: src, dst_port: dst, dst_ip: r.dst, payload },
        ),
{
    let u = datagram_bytes(src, dst, checksum, payload) + behind;
    lemma_link(addresses, tcis, 0x0800, r.bytes() + u);
    lemma_route(r, u);
    lemma_udp(src, dst, checksum, payload, behind, r.dst);
}

/// What is no whole UDP datagram is passed over, and for its own reason: another
/// EtherType, another protocol, a fragment.
pub proof fn law_other_traffic_is_passed_over(
    addresses: Seq<u8>,
    tcis: Seq<(u8, u8)>,
    ethertype: u16,
    r: Route,
    rest: Seq<u8>,
)
    requires
        addresses.len() == 12,
        r.fits(),
        ethertype != 0x8100,
    ensures
        ({
            let got = datagram(link(addresses, tcis, ethertype) + (r.bytes() + rest));
            &&& ethertype != 0x0800 <==> got == Err::<DatagramView, FrameSkip>(FrameSkip::NotIpv4)
            &&& ethertype == 0x0800 ==> {
                &&& r.protocol != 17 <==> got == Err::<DatagramView, FrameSkip>(FrameSkip::NotUdp)
                &&& r.protocol == 17 ==> (!r.whole() <==> got == Err::<DatagramView, FrameSkip>(
                    FrameSkip::Fragmented,
                ))
            }
        }),
{
    lemma_link(addresses, tcis, ethertype, r.bytes() + rest);
    lemma_route(r, rest);
}

/// A frame that ends before its datagram does is too short, wherever it was cut.
pub proof fn law_a_cut_frame_is_too_short(
    addresses: Seq<u8>,
    tcis: Seq<(u8, u8)>,
    r: Route,
    src: u16,
    dst: u16,
    checksum: Seq<u8>,
    payload: Seq<u8>,
    n: int,
)
    requires
        addresses.len() == 12,
        r.fits(),
        r.whole(),
        r.protocol == 17,
        checksum.len() == 2,
        payload.len() <= 0xffff - 8,
        0 <= n < 14 + 4 * tcis.len() + 28 + r.options.len() + payload.len(),
    ensures
        datagram(
            (link(addresses, tcis, 0x0800) + (r.bytes() + datagram_bytes(
                src,
                dst,
                checksum,
                payload,
            ))).take(n),
        ) == Err::<DatagramView, FrameSkip>(FrameSkip::TooShort),
{
    let d = datagram_bytes(src, dst, checksum, payload);
    let ip = r.bytes() + d;
    let lead = link(addresses, tcis, 0x0800);
    let f = (lead + ip).take(n);
    lemma_link(addresses, tcis, 0x0800, ip);
    lemma_udp(src, dst, checksum, payload, Seq::empty(), r.dst);
    lemma_route(r, d);
    let k = lead.len() as int;
    if n >= k {
        let cut = ip.take(n - k);
        assert(f =~= lead + cut);
        lemma_link(addresses, tcis, 0x0800, cut);
        lemma_cut_packet(r, d, n - k);
    } else if n >= 14 {
        lemma_cut_tags(tcis, n - 12);
        assert(f.skip(12) =~= (tags(tcis) + be16_bytes(0x0800)).take(n - 12));
    }
}

proof fn lemma_cut_packet(r: Route, d: Seq<u8>, n: int)
    requires
        r.fits(),
        r.whole(),
        r.protocol == 17,
        d.len() >= 8,
        be16(d, 4) == d.len(),
        0 <= n < r.bytes().len() + d.len(),
    ensures
        ipv4((r.bytes() + d).take(n)) == Err::<DatagramView, FrameSkip>(FrameSkip::TooShort),
{
    let ip = r.bytes() + d;
    let cut = ip.take(n);
    let m = r.bytes().len() as int;
    lemma_route(r, d);
    if n >= m {
        let left = d.take(n - m);
        assert(cut =~= r.bytes() + left);
        lemma_route(r, left);
        if left.len() >= 8 {
            assert(left[4] == d[4] && left[5] == d[5]);
            assert(be16(left, 4) == d.len());
        }
    } else if n >= 20 {
        assert(cut[0] == ip[0]);
    }
}

proof fn lemma_cut_tags(tcis: Seq<(u8, u8)>, n: int)
    requires
        2 <= n < 4 * tcis.len() + 2,
    ensures
        tagged((tags(tcis) + be16_bytes(0x0800)).take(n)) == Err::<DatagramView, FrameSkip>(
            FrameSkip::TooShort,
        ),
    decreases tcis.len(),
{
    let rest = tags(tcis.drop_first()) + be16_bytes(0x0800);
    let s = (tags(tcis) + be16_bytes(0x0800)).take(n);
    lemma_tags(tcis, be16_bytes(0x0800));
    lemma_tags(tcis.drop_first(), be16_bytes(0x0800));
    assert(be16(s, 0) == 0x8100);
    if n >= 6 {
        assert(s.skip(4) =~= rest.take(n - 4));
        lemma_cut_tags(tcis.drop_first(), n - 4);
    }
}

}
