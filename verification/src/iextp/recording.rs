//! What reading a capture guarantees, said of files laid out field after field.
//!
//! Both formats are written here in either byte order, and each law says what
//! packets reading finds in what was written.
use vstd::prelude::*;

use super::capture;
use super::pcap;
use super::pcap::{Endian, PacketView, PcapView};
use super::pcapng;
use super::Error;
use crate::bytes::{
    be32, le16_bytes, le32, le32_bytes, lemma_le16_round_trip, lemma_le32_round_trip,
};

verus! {

/// A 16-bit number in either byte order.
pub open spec fn half_bytes(x: int, little: bool) -> Seq<u8> {
    if little {
        le16_bytes(x)
    } else {
        le16_bytes(x).reverse()
    }
}

/// A 32-bit number in either byte order.
pub open spec fn word_bytes(x: int, little: bool) -> Seq<u8> {
    if little {
        le32_bytes(x)
    } else {
        le32_bytes(x).reverse()
    }
}

/// A 16-bit number reads back from where it was written.
pub proof fn lemma_half_at(b: Seq<u8>, o: int, x: int, little: bool)
    requires
        0 <= x < 0x1_0000,
        0 <= o,
        o + 2 <= b.len(),
        b.subrange(o, o + 2) == half_bytes(x, little),
    ensures
        pcapng::half(b, o, little) == x,
{
    let s = b.subrange(o, o + 2);
    lemma_le16_round_trip(x);
    assert(s[0] == b[o] && s[1] == b[o + 1]);
    assert(s[0] == half_bytes(x, little)[0] && s[1] == half_bytes(x, little)[1]);
}

pub proof fn lemma_half_len(x: int, little: bool)
    ensures
        half_bytes(x, little).len() == 2,
{
}

pub proof fn lemma_word_len(x: int, little: bool)
    ensures
        word_bytes(x, little).len() == 4,
{
}

/// A 32-bit number reads back from where it was written.
pub proof fn lemma_word_at(b: Seq<u8>, o: int, x: int, little: bool)
    requires
        0 <= x < 0x1_0000_0000,
        0 <= o,
        o + 4 <= b.len(),
        b.subrange(o, o + 4) == word_bytes(x, little),
    ensures
        pcapng::word(b, o, little) == x,
        pcap::word(
            b,
            o,
            if little {
                Endian::Little
            } else {
                Endian::Big
            },
        ) == x,
{
    let s = b.subrange(o, o + 4);
    let w = word_bytes(x, little);
    let l = le32_bytes(x);
    lemma_le32_round_trip(x);
    assert(s[0] == b[o] && s[1] == b[o + 1] && s[2] == b[o + 2] && s[3] == b[o + 3]);
    assert(s[0] == w[0] && s[1] == w[1] && s[2] == w[2] && s[3] == w[3]);
    if !little {
        assert(w[0] == l[3] && w[1] == l[2] && w[2] == l[1] && w[3] == l[0]);
    }
}

// Classic captures.

/// A captured frame as a classic capture stores it.
pub struct Recorded {
    pub sec: u32,
    /// Microseconds or nanoseconds, as the file's magic number says.
    pub frac: u32,
    pub data: Seq<u8>,
    pub orig_len: u32,
}

/// The bytes of a record: when, how much was kept of how much, and what.
pub open spec fn record_bytes(r: Recorded, little: bool) -> Seq<u8> {
    word_bytes(r.sec as int, little) + word_bytes(r.frac as int, little) + word_bytes(
        r.data.len() as int,
        little,
    ) + word_bytes(r.orig_len as int, little) + r.data
}

pub open spec fn records_bytes(rs: Seq<Recorded>, little: bool) -> Seq<u8>
    decreases rs.len(),
{
    if rs.len() == 0 {
        Seq::empty()
    } else {
        record_bytes(rs[0], little) + records_bytes(rs.drop_first(), little)
    }
}

/// The number that opens a classic capture, written in the order of the file itself.
pub open spec fn opening(nanos: bool) -> int {
    if nanos {
        0xa1b2_3c4d
    } else {
        0xa1b2_c3d4
    }
}

/// A classic capture's header: magic number, version and two unused words, then how
/// much of a frame is kept, then the kind of link.
pub open spec fn file_header(
    little: bool,
    nanos: bool,
    version: Seq<u8>,
    snaplen: u32,
    linktype: u32,
) -> Seq<u8> {
    word_bytes(opening(nanos), little) + version + word_bytes(snaplen as int, little) + word_bytes(
        linktype as int,
        little,
    )
}

/// The frame a record holds: seconds and their fraction make one count of
/// nanoseconds.
pub open spec fn replayed(r: Recorded, nanos: bool) -> PacketView {
    PacketView {
        ts_nanos: (r.sec * 1_000_000_000 + r.frac * if nanos {
            1int
        } else {
            1_000int
        }) as u64,
        data: r.data,
        orig_len: r.orig_len,
    }
}

pub open spec fn all_replayed(rs: Seq<Recorded>, nanos: bool) -> Seq<PacketView> {
    Seq::new(rs.len(), |i: int| replayed(rs[i], nanos))
}

pub open spec fn storable(rs: Seq<Recorded>) -> bool {
    forall|i: int| 0 <= i < rs.len() ==> (#[trigger] rs[i]).data.len() <= u32::MAX
}

spec fn endian(little: bool) -> Endian {
    if little {
        Endian::Little
    } else {
        Endian::Big
    }
}

proof fn lemma_record(v: PcapView, r: Recorded, little: bool, rest: Seq<u8>)
    requires
        0 <= v.pos <= v.buf.len(),
        v.endian == endian(little),
        r.data.len() <= u32::MAX,
        v.buf.skip(v.pos) == record_bytes(r, little) + rest,
    ensures
        v.has_record(),
        v.captured() == r.data.len(),
        v.record() == replayed(r, v.nanos),
        v.advanced().buf.skip(v.advanced().pos) == rest,
        v.advanced().pos <= v.buf.len(),
{
    let s = v.buf.skip(v.pos);
    let n = r.data.len() as int;
    lemma_word_len(r.sec as int, little);
    lemma_word_len(r.frac as int, little);
    lemma_word_len(n, little);
    lemma_word_len(r.orig_len as int, little);
    assert(s.len() == 16 + n + rest.len());
    assert(v.buf.len() == v.pos + s.len());
    assert(v.buf.subrange(v.pos, v.pos + 4) =~= s.subrange(0, 4));
    assert(v.buf.subrange(v.pos + 4, v.pos + 4 + 4) =~= s.subrange(4, 8));
    assert(v.buf.subrange(v.pos + 8, v.pos + 8 + 4) =~= s.subrange(8, 12));
    assert(v.buf.subrange(v.pos + 12, v.pos + 12 + 4) =~= s.subrange(12, 16));
    assert(s.subrange(0, 4) =~= word_bytes(r.sec as int, little));
    assert(s.subrange(4, 8) =~= word_bytes(r.frac as int, little));
    assert(s.subrange(8, 12) =~= word_bytes(n, little));
    assert(s.subrange(12, 16) =~= word_bytes(r.orig_len as int, little));
    lemma_word_at(v.buf, v.pos, r.sec as int, little);
    lemma_word_at(v.buf, v.pos + 4, r.frac as int, little);
    lemma_word_at(v.buf, v.pos + 8, n, little);
    lemma_word_at(v.buf, v.pos + 12, r.orig_len as int, little);
    assert(v.buf.subrange(v.pos + 16, v.pos + 16 + n) =~= s.subrange(16, 16 + n));
    assert(s.subrange(16, 16 + n) =~= r.data);
    assert(v.buf.skip(v.pos + 16 + n) =~= s.skip(16 + n));
    assert(s.skip(16 + n) =~= rest);
}

/// What was cut short is no record.
proof fn lemma_cut_short(v: PcapView, little: bool, tail: Seq<u8>)
    requires
        0 <= v.pos <= v.buf.len(),
        v.endian == endian(little),
        v.buf.skip(v.pos) == tail,
        cut_short(tail, little),
    ensures
        !v.has_record(),
{
    assert(v.buf.len() == v.pos + tail.len());
    if tail.len() >= 16 {
        let (r, n) = choose|r: Recorded, n: int|
            0 <= n < record_bytes(r, little).len() && r.data.len() <= u32::MAX && tail
                == #[trigger] record_bytes(r, little).take(n);
        let w = record_bytes(r, little);
        let size = r.data.len() as int;
        lemma_word_len(r.sec as int, little);
        lemma_word_len(r.frac as int, little);
        lemma_word_len(size, little);
        lemma_word_len(r.orig_len as int, little);
        assert(w.len() == 16 + size);
        assert(v.buf.subrange(v.pos + 8, v.pos + 8 + 4) =~= tail.subrange(8, 12));
        assert(tail.subrange(8, 12) =~= w.subrange(8, 12));
        assert(w.subrange(8, 12) =~= word_bytes(size, little));
        lemma_word_at(v.buf, v.pos + 8, size, little);
    }
}

proof fn lemma_records(v: PcapView, rs: Seq<Recorded>, little: bool, tail: Seq<u8>)
    requires
        0 <= v.pos <= v.buf.len(),
        v.endian == endian(little),
        storable(rs),
        v.buf.skip(v.pos) == records_bytes(rs, little) + tail,
        cut_short(tail, little),
    ensures
        v.packets() == all_replayed(rs, v.nanos),
    decreases rs.len(),
{
    if rs.len() == 0 {
        assert(v.buf.skip(v.pos) =~= tail);
        lemma_cut_short(v, little, tail);
        assert(all_replayed(rs, v.nanos) =~= Seq::empty());
    } else {
        let more = rs.drop_first();
        let rest = records_bytes(more, little) + tail;
        assert(v.buf.skip(v.pos) =~= record_bytes(rs[0], little) + rest);
        lemma_record(v, rs[0], little, rest);
        assert forall|i: int| 0 <= i < more.len() implies (#[trigger] more[i]).data.len()
            <= u32::MAX by {
            assert(more[i] == rs[i + 1]);
        }
        lemma_records(v.advanced(), more, little, tail);
        assert(seq![replayed(rs[0], v.nanos)] + all_replayed(more, v.nanos) =~= all_replayed(
            rs,
            v.nanos,
        ));
    }
}

/// The front part of a record, as a writer that was stopped leaves it.
pub open spec fn cut_short(tail: Seq<u8>, little: bool) -> bool {
    exists|r: Recorded, n: int|
        0 <= n < record_bytes(r, little).len() && r.data.len() <= u32::MAX && tail
            == #[trigger] record_bytes(r, little).take(n)
}

/// A classic capture in either byte order, with either unit of time, holds the frames
/// that were recorded into it, and one cut short holds those that are whole.
pub proof fn law_a_recording_replays(
    little: bool,
    nanos: bool,
    version: Seq<u8>,
    snaplen: u32,
    linktype: u32,
    rs: Seq<Recorded>,
    tail: Seq<u8>,
)
    requires
        version.len() == 12,
        storable(rs),
        cut_short(tail, little),
    ensures
        ({
            let file = file_header(little, nanos, version, snaplen, linktype) + records_bytes(
                rs,
                little,
            ) + tail;
            &&& pcap::opened(file) is Ok
            &&& pcap::opened(file)->Ok_0.linktype == linktype
            &&& pcap::opened(file)->Ok_0.snaplen == snaplen
            &&& pcap::opened(file)->Ok_0.packets() == all_replayed(rs, nanos)
            &&& capture::opened(file) == Ok::<capture::CaptureView, Error>(
                capture::CaptureView::Pcap(pcap::opened(file)->Ok_0),
            )
            &&& capture::packets_in(file) == all_replayed(rs, nanos)
        }),
{
    let h = file_header(little, nanos, version, snaplen, linktype);
    let rest = records_bytes(rs, little) + tail;
    let file = h + records_bytes(rs, little) + tail;
    lemma_word_len(opening(nanos), little);
    lemma_word_len(snaplen as int, little);
    lemma_word_len(linktype as int, little);
    assert(file =~= h + rest);
    assert(file.subrange(0, 4) =~= word_bytes(opening(nanos), little));
    assert(file.subrange(16, 20) =~= word_bytes(snaplen as int, little));
    assert(file.subrange(20, 24) =~= word_bytes(linktype as int, little));
    lemma_word_at(file, 0, opening(nanos), little);
    lemma_word_at(file, 16, snaplen as int, little);
    lemma_word_at(file, 20, linktype as int, little);
    lemma_opening(file, little, nanos);
    let v = pcap::opened(file)->Ok_0;
    assert(v.endian == endian(little));
    assert(file.skip(24) =~= rest);
    lemma_records(v, rs, little, tail);
}

proof fn lemma_opening(file: Seq<u8>, little: bool, nanos: bool)
    requires
        file.len() >= 24,
        file.subrange(0, 4) == word_bytes(opening(nanos), little),
    ensures
        pcap::magic(be32(file, 0)) == Some((endian(little), nanos)),
        le32(file, 0) != pcapng::BT_SECTION_HEADER,
{
    let s = file.subrange(0, 4);
    let w = word_bytes(opening(nanos), little);
    let l = le32_bytes(opening(nanos));
    assert(s[0] == file[0] && s[1] == file[1] && s[2] == file[2] && s[3] == file[3]);
    assert(s[0] == w[0] && s[1] == w[1] && s[2] == w[2] && s[3] == w[3]);
    assert(!little ==> w[0] == l[3] && w[1] == l[2] && w[2] == l[1] && w[3] == l[0]);
    assert(l[0] == opening(nanos) % 0x100);
    assert(l[3] == 0xa1 && l[2] == 0xb2);
    if nanos {
        assert(l[1] == 0x3c && l[0] == 0x4d);
    } else {
        assert(l[1] == 0xc3 && l[0] == 0xd4);
    }
}

/// A file with no header, or with another number in front, is refused: the error names
/// what was missing or what stood there instead.
pub proof fn law_other_files_are_refused(file: Seq<u8>)
    ensures
        file.len() < 24 ==> pcap::opened(file) == Err::<PcapView, Error>(
            Error::Truncated { need: 24, got: file.len() as usize },
        ),
        file.len() >= 24 ==> (pcap::opened(file) is Ok <==> exists|little: bool, nanos: bool|
            file.take(4) == #[trigger] word_bytes(opening(nanos), little)),
        file.len() >= 24 && pcap::opened(file) is Err ==> {
            &&& pcap::opened(file)->Err_0 is BadMagic
            &&& file.take(4) == word_bytes(pcap::opened(file)->Err_0->BadMagic_0 as int, false)
        },
{
    if file.len() >= 24 {
        let m = be32(file, 0);
        let l = le32_bytes(m);
        let f = file.take(4);
        assert(f =~= file.subrange(0, 4));
        assert(m == 0x100_0000 * file[0] + 0x1_0000 * file[1] + 0x100 * file[2] + file[3]);
        assert(l[0] == file[3] && l[1] == file[2] && l[2] == file[1] && l[3] == file[0]);
        assert(word_bytes(m, false) =~= f);
        if pcap::opened(file) is Ok {
            let (e, nanos) = pcap::magic(m)->Some_0;
            let little = e == Endian::Little;
            let k = le32_bytes(opening(nanos));
            assert(k[3] == 0xa1 && k[2] == 0xb2);
            if nanos {
                assert(k[1] == 0x3c && k[0] == 0x4d);
            } else {
                assert(k[1] == 0xc3 && k[0] == 0xd4);
            }
            let w = word_bytes(opening(nanos), little);
            assert(!little ==> w[0] == k[3] && w[1] == k[2] && w[2] == k[1] && w[3] == k[0]);
            assert(f =~= w);
        }
        if exists|little: bool, nanos: bool|
            f == #[trigger] word_bytes(opening(nanos), little) {
            let (little, nanos) = choose|little: bool, nanos: bool|
                f == #[trigger] word_bytes(opening(nanos), little);
            lemma_opening(file, little, nanos);
        }
    }
}

}
