//! Writing IEX-TP segments of DEEP messages, all the way out to a capture file.
//!
//! Each layer is the inverse of the reader of that layer, and says so.
use vstd::prelude::*;

use crate::bytes::{
    be16, be16_bytes, le16, le16_bytes, le32, le32_bytes, lemma_le16_round_trip,
    lemma_le32_round_trip, lemma_les64_round_trip, lemma_reads_are_local, les64, les64_bytes,
    push_i64_le, push_u16_be, push_u16_le, push_u32_le,
};
use crate::deep::messages::{
    decoded, fields, symbol_at, MessageView, PriceLevelUpdate, Side, T_PRICE_LEVEL_BUY,
    T_PRICE_LEVEL_SELL,
};
use crate::deep::symbol::Symbol;
use crate::iextp::frame;
use crate::iextp::frame::{datagram, ipv4, tagged, udp, DatagramView};
use crate::iextp::pcap;
use crate::iextp::pcap::{Endian, PacketView, PcapView};
use crate::iextp::layout::{packed, stub};
use crate::iextp::segment::{bodies, segment, SegmentView};

verus! {

/// The type byte of a side's price level updates.
pub open spec fn kind(side: Side) -> u8 {
    match side {
        Side::Buy => T_PRICE_LEVEL_BUY,
        Side::Sell => T_PRICE_LEVEL_SELL,
    }
}

/// A price level update on the wire: 30 bytes, little-endian.
pub open spec fn encoded(u: PriceLevelUpdate) -> Seq<u8> {
    seq![kind(u.side), u.flags] + les64_bytes(u.timestamp as int) + u.symbol.0@ + le32_bytes(
        u.size as int,
    ) + les64_bytes(u.price.0 as int)
}

/// A price level update with its length in front.
pub open spec fn prefixed(u: PriceLevelUpdate) -> Seq<u8> {
    le16_bytes(30) + encoded(u)
}

/// A message block: updates back to back, each with its length in front.
pub open spec fn block(us: Seq<PriceLevelUpdate>) -> Seq<u8>
    decreases us.len(),
{
    if us.len() == 0 {
        Seq::empty()
    } else {
        prefixed(us[0]) + block(us.drop_first())
    }
}

/// A segment: the 40-byte header of a DEEP segment, then its message block.
pub open spec fn segment_bytes(session: u32, first: int, count: int, body: Seq<u8>) -> Seq<u8> {
    seq![1u8, 0u8] + le16_bytes(0x8004) + le32_bytes(1) + le32_bytes(session as int) + le16_bytes(
        body.len() as int,
    ) + le16_bytes(count) + les64_bytes(0) + les64_bytes(first) + les64_bytes(0) + body
}

/// Link addresses, a VLAN tag and the EtherType for IPv4.
pub open spec fn link_header() -> Seq<u8> {
    seq![
        0x01,
        0x00,
        0x5e,
        0x57,
        0x15,
        0x04,
        0x00,
        0x1e,
        0x67,
        0xf2,
        0x62,
        0x24,
        0x81,
        0x00,
        0x03,
        0xf5,
        0x08,
        0x00,
    ]
}

/// An IPv4 header for a UDP datagram with `len` bytes of payload.
pub open spec fn ip_header(len: int) -> Seq<u8> {
    seq![0x45u8, 0x00u8] + be16_bytes(28 + len) + seq![0u8, 0, 0, 0, 64, 17, 0, 0] + seq![
        10u8,
        0,
        0,
        1,
    ] + seq![233u8, 215, 21, 4]
}

/// A UDP header for `len` bytes of payload.
pub open spec fn udp_header(len: int) -> Seq<u8> {
    be16_bytes(10378) + be16_bytes(10378) + be16_bytes(8 + len) + seq![0u8, 0]
}

/// Ethernet, VLAN, IPv4 and UDP around a payload.
pub open spec fn frame_bytes(payload: Seq<u8>) -> Seq<u8> {
    link_header() + ip_header(payload.len() as int) + udp_header(payload.len() as int) + payload
}

/// A frame as a capture record stamped in microseconds.
pub open spec fn record_bytes(ts_nanos: int, frame: Seq<u8>) -> Seq<u8> {
    le32_bytes(ts_nanos / 1_000_000_000) + le32_bytes(ts_nanos % 1_000_000_000 / 1_000)
        + le32_bytes(frame.len() as int) + le32_bytes(frame.len() as int) + frame
}

/// The header of a little-endian, microsecond, Ethernet capture.
pub open spec fn capture_header() -> Seq<u8> {
    le32_bytes(0xa1b2_c3d4) + le16_bytes(2) + le16_bytes(4) + seq![0u8, 0, 0, 0, 0, 0, 0, 0]
        + le32_bytes(65535) + le32_bytes(1)
}

proof fn lemma_encoded_len(u: PriceLevelUpdate)
    ensures
        encoded(u).len() == 30,
        prefixed(u).len() == 32,
{
    lemma_les64_round_trip(u.timestamp as int);
    lemma_les64_round_trip(u.price.0 as int);
    lemma_le32_round_trip(u.size as int);
}

/// Where the fields of a written update stand.
#[verifier::spinoff_prover]
proof fn lemma_encoded_fields(u: PriceLevelUpdate)
    ensures
        ({
            let b = encoded(u);
            &&& b.len() == 30
            &&& b[0] == kind(u.side)
            &&& b[1] == u.flags
            &&& les64(b, 2) == u.timestamp
            &&& le32(b, 18) == u.size
            &&& les64(b, 22) == u.price.0
            &&& b.subrange(10, 18) == u.symbol.0@
        }),
{
    let b = encoded(u);
    lemma_encoded_len(u);
    let ts = les64_bytes(u.timestamp as int);
    let sz = le32_bytes(u.size as int);
    let px = les64_bytes(u.price.0 as int);
    lemma_les64_round_trip(u.timestamp as int);
    lemma_les64_round_trip(u.price.0 as int);
    lemma_le32_round_trip(u.size as int);
    assert(b.subrange(2, 10) =~= ts.subrange(0, 8));
    lemma_reads_are_local(b, ts, 2, 0, 8);
    assert(b.subrange(18, 22) =~= sz.subrange(0, 4));
    lemma_reads_are_local(b, sz, 18, 0, 4);
    assert(b.subrange(22, 30) =~= px.subrange(0, 8));
    lemma_reads_are_local(b, px, 22, 0, 8);
    assert(b.subrange(10, 18) =~= u.symbol.0@);
}

proof fn lemma_symbol_at(b: Seq<u8>, s: Symbol)
    requires
        b.len() >= 18,
        b.subrange(10, 18) == s.0@,
    ensures
        symbol_at(b, 10) == s,
{
    assert forall|i: int| 0 <= i < 8 implies #[trigger] s.0@[i] == b[10 + i] by {
        assert(b.subrange(10, 18)[i] == b[10 + i]);
    }
    assert(symbol_at(b, 10).0@ =~= s.0@);
    assert(symbol_at(b, 10).0 =~= s.0);
}

/// Every field of a written update survives being read back.
#[verifier::spinoff_prover]
pub proof fn law_updates_read_back(u: PriceLevelUpdate)
    ensures
        decoded(encoded(u)) == Ok::<MessageView, crate::deep::Error>(MessageView::PriceLevel(u)),
{
    let b = encoded(u);
    lemma_encoded_fields(u);
    lemma_symbol_at(b, u.symbol);
    assert(fields(b) == MessageView::PriceLevel(u));
}

/// One more update at the end of a block.
pub proof fn lemma_block_push(us: Seq<PriceLevelUpdate>, u: PriceLevelUpdate)
    ensures
        block(us.push(u)) == block(us) + prefixed(u),
        block(us).len() == 32 * us.len(),
    decreases us.len(),
{
    let all = us.push(u);
    if us.len() == 0 {
        assert(block(all.drop_first()) =~= Seq::empty());
        assert(block(all) =~= prefixed(u));
        assert(block(us) + prefixed(u) =~= prefixed(u));
    } else {
        lemma_encoded_len(us[0]);
        lemma_block_push(us.drop_first(), u);
        assert(all.drop_first() =~= us.drop_first().push(u));
        assert(block(all) =~= block(us) + prefixed(u));
    }
}

/// Every update takes up as much of a block as any other.
pub proof fn lemma_block_len(us: Seq<PriceLevelUpdate>)
    ensures
        block(us).len() == 32 * us.len(),
    decreases us.len(),
{
    if us.len() > 0 {
        lemma_encoded_len(us[0]);
        lemma_block_len(us.drop_first());
    }
}

/// A written block reads back as the updates that went into it.
pub proof fn law_blocks_read_back(us: Seq<PriceLevelUpdate>)
    ensures
        bodies(block(us), us.len()) == us.map_values(|u: PriceLevelUpdate| encoded(u)),
    decreases us.len(),
{
    let b = block(us);
    let want = us.map_values(|u: PriceLevelUpdate| encoded(u));
    if us.len() == 0 {
        assert(bodies(b, 0) =~= want);
    } else {
        let rest = us.drop_first();
        lemma_encoded_len(us[0]);
        lemma_le16_round_trip(30);
        law_blocks_read_back(rest);
        assert(b.subrange(0, 2) =~= le16_bytes(30).subrange(0, 2));
        lemma_reads_are_local(b, le16_bytes(30), 0, 0, 2);
        assert(b.subrange(2, 32) =~= encoded(us[0]));
        assert(b.skip(32) =~= block(rest));
        assert(seq![encoded(us[0])] + rest.map_values(|u: PriceLevelUpdate| encoded(u)) =~= want);
    }
}

/// A written segment reads back as its header fields and message block.
pub proof fn law_segments_read_back(session: u32, first: i64, count: u16, body: Seq<u8>)
    requires
        body.len() <= 0xffff,
    ensures
        segment_bytes(session, first as int, count as int, body).len() == 40 + body.len(),
        segment(segment_bytes(session, first as int, count as int, body)) == Ok::<
            SegmentView,
            crate::iextp::Error,
        >(
            SegmentView {
                version: 1,
                protocol: 0x8004,
                channel: 1,
                session,
                message_count: count,
                stream_offset: 0,
                first_sequence: first,
                send_time: 0,
                block: body,
            },
        ),
{
    let p = segment_bytes(session, first as int, count as int, body);
    lemma_le16_round_trip(0x8004);
    lemma_le32_round_trip(1);
    lemma_le32_round_trip(session as int);
    lemma_le16_round_trip(body.len() as int);
    lemma_le16_round_trip(count as int);
    lemma_les64_round_trip(0);
    lemma_les64_round_trip(first as int);
    assert(p.subrange(2, 4) =~= le16_bytes(0x8004).subrange(0, 2));
    lemma_reads_are_local(p, le16_bytes(0x8004), 2, 0, 2);
    assert(p.subrange(4, 8) =~= le32_bytes(1).subrange(0, 4));
    lemma_reads_are_local(p, le32_bytes(1), 4, 0, 4);
    assert(p.subrange(8, 12) =~= le32_bytes(session as int).subrange(0, 4));
    lemma_reads_are_local(p, le32_bytes(session as int), 8, 0, 4);
    assert(p.subrange(12, 14) =~= le16_bytes(body.len() as int).subrange(0, 2));
    lemma_reads_are_local(p, le16_bytes(body.len() as int), 12, 0, 2);
    assert(p.subrange(14, 16) =~= le16_bytes(count as int).subrange(0, 2));
    lemma_reads_are_local(p, le16_bytes(count as int), 14, 0, 2);
    assert(p.subrange(16, 24) =~= les64_bytes(0).subrange(0, 8));
    lemma_reads_are_local(p, les64_bytes(0), 16, 0, 8);
    assert(p.subrange(24, 32) =~= les64_bytes(first as int).subrange(0, 8));
    lemma_reads_are_local(p, les64_bytes(first as int), 24, 0, 8);
    assert(p.subrange(32, 40) =~= les64_bytes(0).subrange(0, 8));
    lemma_reads_are_local(p, les64_bytes(0), 32, 0, 8);
    assert(p.subrange(40, 40 + body.len() as int) =~= body);
}

/// The datagram a written frame carries.
pub open spec fn addressed(payload: Seq<u8>) -> DatagramView {
    DatagramView {
        src_port: 10378,
        dst_port: 10378,
        dst_ip: seq![233u8, 215, 21, 4],
        payload,
    }
}

proof fn lemma_udp_reads_back(payload: Seq<u8>)
    requires
        payload.len() <= 0xffff - 28,
    ensures
        udp(udp_header(payload.len() as int) + payload, seq![233u8, 215, 21, 4]) == Ok::<
            DatagramView,
            frame::FrameSkip,
        >(addressed(payload)),
        udp_header(payload.len() as int).len() == 8,
{
    let n = payload.len() as int;
    let u = udp_header(n) + payload;
    lemma_le16_round_trip(10378);
    lemma_le16_round_trip(8 + n);
    assert(u[0] == be16_bytes(10378)[0] && u[1] == be16_bytes(10378)[1]);
    assert(u[2] == be16_bytes(10378)[0] && u[3] == be16_bytes(10378)[1]);
    assert(u[4] == be16_bytes(8 + n)[0] && u[5] == be16_bytes(8 + n)[1]);
    assert(u.subrange(8, 8 + n) =~= payload);
}

proof fn lemma_ip_reads_back(n: int, u: Seq<u8>)
    requires
        0 <= n <= 0xffff - 28,
    ensures
        ipv4(ip_header(n) + u) == udp(u, seq![233u8, 215, 21, 4]),
        ip_header(n).len() == 20,
{
    let ip = ip_header(n) + u;
    assert(ip[0] == 0x45 && ip[9] == 17 && ip[6] == 0 && ip[7] == 0);
    assert(ip.skip(20) =~= u);
    assert(ip.subrange(16, 20) =~= seq![233u8, 215, 21, 4]);
}

proof fn lemma_link_reads_back(ip: Seq<u8>)
    ensures
        datagram(link_header() + ip) == ipv4(ip),
        link_header().len() == 18,
{
    let f = link_header() + ip;
    let typed = seq![0x08u8, 0x00u8] + ip;
    let s = seq![0x81u8, 0x00u8, 0x03u8, 0xf5u8] + typed;
    assert(f.skip(12) =~= s);
    assert(s.skip(4) =~= typed);
    assert(typed.skip(2) =~= ip);
    assert(be16(s, 0) == 0x8100);
    assert(be16(typed, 0) == 0x0800);
    assert(tagged(typed) == ipv4(ip));
    assert(tagged(s) == tagged(typed));
}

/// A written frame reads back as the datagram it carries.
pub proof fn law_frames_read_back(payload: Seq<u8>)
    requires
        payload.len() <= 0xffff - 28,
    ensures
        frame_bytes(payload).len() == 46 + payload.len(),
        datagram(frame_bytes(payload)) == Ok::<DatagramView, frame::FrameSkip>(
            addressed(payload),
        ),
{
    let n = payload.len() as int;
    let u = udp_header(n) + payload;
    let ip = ip_header(n) + u;
    lemma_udp_reads_back(payload);
    lemma_ip_reads_back(n, u);
    lemma_link_reads_back(ip);
    lemma_regroup(link_header(), ip_header(n), udp_header(n), payload);
}

proof fn lemma_regroup(a: Seq<u8>, b: Seq<u8>, c: Seq<u8>, d: Seq<u8>)
    ensures
        a + b + c + d == a + (b + (c + d)),
{
    assert(a + b + c + d =~= a + (b + (c + d)));
}

/// A frame and when it was captured.
pub struct Stamped {
    pub ts_nanos: int,
    pub frame: Seq<u8>,
}

/// Capture records back to back.
pub open spec fn records(ps: Seq<Stamped>) -> Seq<u8>
    decreases ps.len(),
{
    if ps.len() == 0 {
        Seq::empty()
    } else {
        record_bytes(ps[0].ts_nanos, ps[0].frame) + records(ps.drop_first())
    }
}

/// A capture grows by a record at its end.
pub proof fn lemma_records_push(ps: Seq<Stamped>, p: Stamped)
    ensures
        records(ps.push(p)) == records(ps) + record_bytes(p.ts_nanos, p.frame),
    decreases ps.len(),
{
    let all = ps.push(p);
    if ps.len() == 0 {
        assert(records(all.drop_first()) =~= Seq::empty());
        assert(records(all) =~= records(ps) + record_bytes(p.ts_nanos, p.frame));
    } else {
        lemma_records_push(ps.drop_first(), p);
        assert(all.drop_first() =~= ps.drop_first().push(p));
        assert(records(all) =~= records(ps) + record_bytes(p.ts_nanos, p.frame));
    }
}

/// Frames small enough and times early enough for a capture record.
pub open spec fn recordable(ps: Seq<Stamped>) -> bool {
    forall|i: int|
        0 <= i < ps.len() ==> (#[trigger] ps[i]).frame.len() <= 0xffff_ffff && 0 <= ps[i].ts_nanos
            < 0x1_0000_0000 * 1_000_000_000
}

/// What a record reads back as: the frame, stamped to the microsecond.
pub open spec fn read_back(p: Stamped) -> PacketView {
    PacketView {
        ts_nanos: (p.ts_nanos / 1_000 * 1_000) as u64,
        data: p.frame,
        orig_len: p.frame.len() as u32,
    }
}

/// A written capture reads back as the frames that went into it, in order.
pub proof fn law_captures_read_back(ps: Seq<Stamped>)
    requires
        recordable(ps),
    ensures
        crate::iextp::capture::packets_in(capture_header() + records(ps)) == ps.map_values(
            |p: Stamped| read_back(p),
        ),
{
    let h = capture_header();
    let buf = h + records(ps);
    lemma_capture_header();
    assert(buf[0] == 0xd4 && buf[1] == 0xc3 && buf[2] == 0xb2 && buf[3] == 0xa1) by {
        assert(buf[0] == h[0] && buf[1] == h[1] && buf[2] == h[2] && buf[3] == h[3]);
    }
    assert(be16(buf, 0) == 0xd4c3 && be16(buf, 2) == 0xb2a1);
    assert(le16(buf, 0) == 0xc3d4 && le16(buf, 2) == 0xa1b2);
    assert(pcap::opened(buf) is Ok);
    let st = pcap::opened(buf)->Ok_0;
    assert(st.pos == 24 && st.endian == Endian::Little && !st.nanos);
    assert(buf.skip(24) =~= records(ps));
    lemma_records_read_back(st, ps);
}

proof fn lemma_capture_header()
    ensures
        capture_header().len() == 24,
        capture_header()[0] == 0xd4,
        capture_header()[1] == 0xc3,
        capture_header()[2] == 0xb2,
        capture_header()[3] == 0xa1,
{
    let magic = le32_bytes(0xa1b2_c3d4);
    assert(magic =~= seq![0xd4u8, 0xc3, 0xb2, 0xa1]);
    lemma_le32_round_trip(65535);
    lemma_le32_round_trip(1);
}

/// The fields of a record, at their offsets.
proof fn lemma_record_fields(p: Stamped)
    requires
        p.frame.len() <= 0xffff_ffff,
        0 <= p.ts_nanos < 0x1_0000_0000 * 1_000_000_000,
    ensures
        ({
            let r = record_bytes(p.ts_nanos, p.frame);
            let n = p.frame.len() as int;
            &&& r.len() == 16 + n
            &&& le32(r, 0) == p.ts_nanos / 1_000_000_000
            &&& le32(r, 4) == p.ts_nanos % 1_000_000_000 / 1_000
            &&& le32(r, 8) == n
            &&& le32(r, 12) == n
            &&& r.subrange(16, 16 + n) == p.frame
        }),
{
    let r = record_bytes(p.ts_nanos, p.frame);
    let n = p.frame.len() as int;
    let secs = p.ts_nanos / 1_000_000_000;
    let usecs = p.ts_nanos % 1_000_000_000 / 1_000;
    assert(0 <= secs < 0x1_0000_0000);
    lemma_le32_round_trip(secs);
    lemma_le32_round_trip(usecs);
    lemma_le32_round_trip(n);
    let a = le32_bytes(secs);
    let b = le32_bytes(usecs);
    let c = le32_bytes(n);
    assert(r.subrange(0, 4) =~= a.subrange(0, 4));
    lemma_reads_are_local(r, a, 0, 0, 4);
    assert(r.subrange(4, 8) =~= b.subrange(0, 4));
    lemma_reads_are_local(r, b, 4, 0, 4);
    assert(r.subrange(8, 12) =~= c.subrange(0, 4));
    lemma_reads_are_local(r, c, 8, 0, 4);
    assert(r.subrange(12, 16) =~= c.subrange(0, 4));
    lemma_reads_are_local(r, c, 12, 0, 4);
    assert(r.subrange(16, 16 + n) =~= p.frame);
}

/// A window into what follows a position.
proof fn lemma_window(buf: Seq<u8>, pos: int, r: Seq<u8>, rest: Seq<u8>, i: int, j: int)
    requires
        0 <= pos <= buf.len(),
        buf.skip(pos) == r + rest,
        0 <= i <= j <= r.len(),
    ensures
        buf.subrange(pos + i, pos + j) == r.subrange(i, j),
        pos + r.len() <= buf.len(),
        buf.skip(pos + r.len()) == rest,
{
    let tail = buf.skip(pos);
    assert(tail.len() == r.len() + rest.len());
    assert(tail.subrange(i, j) =~= r.subrange(i, j));
    assert(buf.subrange(pos + i, pos + j) =~= tail.subrange(i, j));
    assert(tail.skip(r.len() as int) =~= rest);
    assert(buf.skip(pos + r.len()) =~= tail.skip(r.len() as int));
}

/// A reader at a record reads it back, and goes on behind it.
#[verifier::spinoff_prover]
proof fn lemma_record_reads_back(st: PcapView, p: Stamped, rest: Seq<u8>)
    requires
        recordable(seq![p]),
        0 <= st.pos <= st.buf.len(),
        st.endian == Endian::Little,
        !st.nanos,
        st.buf.skip(st.pos) == record_bytes(p.ts_nanos, p.frame) + rest,
    ensures
        st.has_record(),
        st.record() == read_back(p),
        0 <= st.advanced().pos <= st.buf.len(),
        st.advanced().buf == st.buf,
        st.advanced().endian == st.endian,
        st.advanced().nanos == st.nanos,
        st.buf.skip(st.advanced().pos) == rest,
{
    let n = p.frame.len() as int;
    let r = record_bytes(p.ts_nanos, p.frame);
    let secs = p.ts_nanos / 1_000_000_000;
    let usecs = p.ts_nanos % 1_000_000_000 / 1_000;
    assert(seq![p][0] == p);
    lemma_record_fields(p);
    lemma_window(st.buf, st.pos, r, rest, 0, 4);
    lemma_reads_are_local(st.buf, r, st.pos, 0, 4);
    lemma_window(st.buf, st.pos, r, rest, 4, 8);
    lemma_reads_are_local(st.buf, r, st.pos + 4, 4, 4);
    lemma_window(st.buf, st.pos, r, rest, 8, 12);
    lemma_reads_are_local(st.buf, r, st.pos + 8, 8, 4);
    lemma_window(st.buf, st.pos, r, rest, 12, 16);
    lemma_reads_are_local(st.buf, r, st.pos + 12, 12, 4);
    lemma_window(st.buf, st.pos, r, rest, 16, 16 + n);
    assert(st.captured() == n);
    assert(secs * 1_000_000_000 + usecs * 1_000 == p.ts_nanos / 1_000 * 1_000);
    assert(st.record() =~= read_back(p));
}

/// From any record boundary on, a reader finds the records that are left.
proof fn lemma_records_read_back(st: PcapView, ps: Seq<Stamped>)
    requires
        recordable(ps),
        0 <= st.pos <= st.buf.len(),
        st.endian == Endian::Little,
        !st.nanos,
        st.buf.skip(st.pos) == records(ps),
    ensures
        st.packets() == ps.map_values(|p: Stamped| read_back(p)),
    decreases ps.len(),
{
    let want = ps.map_values(|p: Stamped| read_back(p));
    if ps.len() == 0 {
        assert(st.buf.skip(st.pos).len() == 0);
        assert(st.packets() =~= want);
    } else {
        let p = ps[0];
        let rest = ps.drop_first();
        lemma_record_reads_back(st, p, records(rest));
        lemma_records_read_back(st.advanced(), rest);
        assert(seq![read_back(p)] + rest.map_values(|p: Stamped| read_back(p)) =~= want);
    }
}

/// How many length-prefixed messages a block claims, walking by the lengths.
pub open spec fn prefixes(b: Seq<u8>) -> nat
    decreases b.len(),
{
    if b.len() < 2 || le16(b, 0) < 0 {
        0
    } else if 2 + le16(b, 0) > b.len() {
        1
    } else {
        1 + prefixes(b.skip(2 + le16(b, 0)))
    }
}

/// A written block claims as many messages as went into it.
pub proof fn lemma_prefixes_of_block(us: Seq<PriceLevelUpdate>)
    ensures
        prefixes(block(us)) == us.len(),
    decreases us.len(),
{
    let b = block(us);
    if us.len() > 0 {
        lemma_encoded_len(us[0]);
        lemma_le16_round_trip(30);
        assert(b.subrange(0, 2) =~= le16_bytes(30).subrange(0, 2));
        lemma_reads_are_local(b, le16_bytes(30), 0, 0, 2);
        assert(b.skip(32) =~= block(us.drop_first()));
        lemma_prefixes_of_block(us.drop_first());
    }
}

/// Count length-prefixed messages in a body.
pub fn count_messages(body: &[u8]) -> (r: u16)
    requires
        prefixes(body@) <= u16::MAX,
    ensures
        r == prefixes(body@),
{
    let mut n: u16 = 0;
    let mut i: usize = 0;
    assert(body@.skip(0) =~= body@);
    while body.len() - i >= 2
        invariant
            i <= body@.len(),
            n + prefixes(body@.skip(i as int)) == prefixes(body@),
            prefixes(body@) <= u16::MAX,
        decreases body@.len() - i,
    {
        let len: usize = crate::bytes::u16_le(body, i) as usize;
        n = n + 1;
        if len > body.len() - i - 2 {
            return n;
        }
        assert(body@.skip(i as int).skip(2 + len) =~= body@.skip(i + 2 + len));
        i = i + 2 + len;
    }
    n
}

/// Start a capture file.
pub fn write_pcap_header(out: &mut Vec<u8>)
    ensures
        final(out)@ == old(out)@ + capture_header(),
{
    push_u32_le(out, 0xa1b2_c3d4);
    push_u16_le(out, 2);
    push_u16_le(out, 4);
    let zeros: [u8; 8] = [0, 0, 0, 0, 0, 0, 0, 0];
    assert(zeros@ =~= seq![0u8, 0, 0, 0, 0, 0, 0, 0]);
    out.extend_from_slice(&zeros);
    push_u32_le(out, 65535);
    push_u32_le(out, 1);
    assert(out@ =~= old(out)@ + capture_header());
}

/// Append one DEEP price level update with its length.
pub fn write_price_level(body: &mut Vec<u8>, u: &PriceLevelUpdate)
    ensures
        final(body)@ == old(body)@ + prefixed(*u),
{
    push_u16_le(body, 30);
    body.push(
        match u.side {
            Side::Buy => T_PRICE_LEVEL_BUY,
            Side::Sell => T_PRICE_LEVEL_SELL,
        },
    );
    body.push(u.flags);
    push_i64_le(body, u.timestamp);
    body.extend_from_slice(&u.symbol.0);
    push_u32_le(body, u.size);
    push_i64_le(body, u.price.raw());
    assert(body@ =~= old(body)@ + prefixed(*u));
}

/// The 40-byte IEX-TP header, then the message block.
pub fn build_segment(session: u32, first_sequence: i64, count: u16, body: &[u8]) -> (r: Vec<u8>)
    requires
        body@.len() <= 0xffff,
    ensures
        r@ == segment_bytes(session, first_sequence as int, count as int, body@),
        r@.len() == 40 + body@.len(),
{
    proof {
        lemma_le32_round_trip(1);
        lemma_le32_round_trip(session as int);
        lemma_les64_round_trip(0);
        lemma_les64_round_trip(first_sequence as int);
    }
    let mut s: Vec<u8> = Vec::new();
    s.push(1);
    s.push(0);
    push_u16_le(&mut s, 0x8004);
    push_u32_le(&mut s, 1);
    push_u32_le(&mut s, session);
    push_u16_le(&mut s, body.len() as u16);
    push_u16_le(&mut s, count);
    push_i64_le(&mut s, 0);
    push_i64_le(&mut s, first_sequence);
    push_i64_le(&mut s, 0);
    s.extend_from_slice(body);
    assert(s@ =~= segment_bytes(session, first_sequence as int, count as int, body@));
    s
}

/// Ethernet, 802.1Q VLAN, IPv4 and UDP around one segment.
pub fn build_frame(segment: &[u8]) -> (r: Vec<u8>)
    requires
        segment@.len() <= 0xffff - 28,
    ensures
        r@ == frame_bytes(segment@),
{
    let mut frame: Vec<u8> = Vec::new();
    let link: [u8; 18] = [
        0x01,
        0x00,
        0x5e,
        0x57,
        0x15,
        0x04,
        0x00,
        0x1e,
        0x67,
        0xf2,
        0x62,
        0x24,
        0x81,
        0x00,
        0x03,
        0xf5,
        0x08,
        0x00,
    ];
    assert(link@ =~= link_header());
    frame.extend_from_slice(&link);
    assert(frame@ =~= link_header());
    push_ip_header(&mut frame, segment.len());
    push_udp_header(&mut frame, segment.len());
    frame.extend_from_slice(segment);
    frame
}

fn push_ip_header(out: &mut Vec<u8>, len: usize)
    requires
        len <= 0xffff - 28,
    ensures
        final(out)@ == old(out)@ + ip_header(len as int),
{
    out.push(0x45);
    out.push(0x00);
    push_u16_be(out, (28 + len) as u16);
    let fixed: [u8; 16] = [0, 0, 0, 0, 64, 17, 0, 0, 10, 0, 0, 1, 233, 215, 21, 4];
    out.extend_from_slice(&fixed);
    assert(fixed@ =~= seq![0u8, 0, 0, 0, 64, 17, 0, 0] + seq![10u8, 0, 0, 1] + seq![
        233u8,
        215,
        21,
        4,
    ]);
    assert(out@ =~= old(out)@ + ip_header(len as int));
}

fn push_udp_header(out: &mut Vec<u8>, len: usize)
    requires
        len <= 0xffff - 28,
    ensures
        final(out)@ == old(out)@ + udp_header(len as int),
{
    push_u16_be(out, 10378);
    push_u16_be(out, 10378);
    push_u16_be(out, (8 + len) as u16);
    out.push(0);
    out.push(0);
    assert(out@ =~= old(out)@ + udp_header(len as int));
}

/// Ethernet, 802.1Q VLAN, IPv4 and UDP around one segment, framed as a capture
/// record. The VLAN tag is not decoration: every real IEX frame carries one, and
/// a decoder that assumes IPv4 at offset 14 misparses all of them.
pub fn write_packet(out: &mut Vec<u8>, ts_nanos: u64, segment: &[u8])
    requires
        segment@.len() <= 0xffff - 28,
        ts_nanos < 0x1_0000_0000 * 1_000_000_000,
    ensures
        final(out)@ == old(out)@ + record_bytes(ts_nanos as int, frame_bytes(segment@)),
{
    let frame = build_frame(segment);
    proof {
        law_frames_read_back(segment@);
    }
    let secs: u64 = ts_nanos / 1_000_000_000;
    let usecs: u64 = ts_nanos % 1_000_000_000 / 1_000;
    push_u32_le(out, secs as u32);
    push_u32_le(out, usecs as u32);
    push_u32_le(out, frame.len() as u32);
    push_u32_le(out, frame.len() as u32);
    out.extend_from_slice(frame.as_slice());
    assert(out@ =~= old(out)@ + record_bytes(ts_nanos as int, frame_bytes(segment@)));
}


/// Lengths are walked one after the other: every whole message counts, and so does one
/// that its length says is there but that the block is too short for.
pub proof fn law_claims_are_counted_by_their_lengths(bs: Seq<Seq<u8>>, rest: Seq<u8>)
    requires
        forall|i: int| 0 <= i < bs.len() ==> (#[trigger] bs[i]).len() <= 0xffff,
        stub(rest),
    ensures
        prefixes(packed(bs) + rest) == bs.len() + if rest.len() < 2 {
            0int
        } else {
            1
        },
    decreases bs.len(),
{
    let b = packed(bs) + rest;
    if bs.len() == 0 {
        assert(b =~= rest);
    } else {
        let n = bs[0].len() as int;
        let more = bs.drop_first();
        lemma_le16_round_trip(n);
        assert(b[0] == le16_bytes(n)[0] && b[1] == le16_bytes(n)[1]);
        assert(b.skip(2 + n) =~= packed(more) + rest);
        assert forall|i: int| 0 <= i < more.len() implies (#[trigger] more[i]).len() <= 0xffff by {
            assert(more[i] == bs[i + 1]);
        }
        law_claims_are_counted_by_their_lengths(more, rest);
    }
}

}
