//! What reading a block-structured capture guarantees, said of blocks laid out one
//! after the other in either byte order.
use vstd::arithmetic::power::{lemma_pow_adds, lemma_pow_positive, pow};
use vstd::prelude::*;

use super::capture;
use super::capture::CaptureView;
use super::pcap;
use super::pcap::PacketView;
use super::pcapng;
use super::pcapng::{half, options, resolution, word, Interface, NgView};
use super::recording::{
    half_bytes, lemma_half_at, lemma_half_len, lemma_word_at, lemma_word_len, word_bytes,
};
use super::Error;
use crate::bytes::{be32, le32, le32_bytes};

verus! {

/// What a block says.
pub enum Block {
    /// A section begins, whose numbers are in the given byte order.
    Section { little: bool, rest: Seq<u8> },
    /// An interface, with its options and what closes their list.
    Interface {
        linktype: u16,
        reserved: u16,
        snaplen: u32,
        options: Seq<(u16, Seq<u8>)>,
        closing: Seq<u8>,
    },
    /// A packet that came in on an interface, stamped in that interface's units.
    Packet { iface: u32, units: u64, data: Seq<u8>, orig_len: u32, behind: Seq<u8> },
    /// A packet without a stamp.
    Simple { orig_len: u32, kept: Seq<u8> },
    /// Anything else.
    Other { kind: u32, body: Seq<u8> },
}

/// Bytes that bring a length up to a multiple of four.
pub open spec fn padding(n: int) -> Seq<u8> {
    Seq::new(((4 - n % 4) % 4) as nat, |i: int| 0u8)
}

/// An option list: code, length, value and padding of each.
pub open spec fn options_bytes(os: Seq<(u16, Seq<u8>)>, little: bool) -> Seq<u8>
    decreases os.len(),
{
    if os.len() == 0 {
        Seq::empty()
    } else {
        half_bytes(os[0].0 as int, little) + half_bytes(os[0].1.len() as int, little) + os[0].1
            + padding(os[0].1.len() as int) + options_bytes(os.drop_first(), little)
    }
}

impl Block {
    /// The number that tells its type.
    pub open spec fn kind(self) -> u32 {
        match self {
            Block::Section { .. } => 0x0a0d_0d0a,
            Block::Interface { .. } => 1,
            Block::Simple { .. } => 3,
            Block::Packet { .. } => 6,
            Block::Other { kind, .. } => kind,
        }
    }

    /// Its fields, one after the other. A stamp is written high word first.
    pub open spec fn body(self, order: bool) -> Seq<u8> {
        match self {
            Block::Section { little, rest } => word_bytes(0x1a2b_3c4d, little) + rest,
            Block::Interface { linktype, reserved, snaplen, options, closing } => half_bytes(
                linktype as int,
                order,
            ) + half_bytes(reserved as int, order) + word_bytes(snaplen as int, order)
                + options_bytes(options, order) + closing,
            Block::Packet { iface, units, data, orig_len, behind } => word_bytes(
                iface as int,
                order,
            ) + word_bytes(units as int / 0x1_0000_0000, order) + word_bytes(
                units as int % 0x1_0000_0000,
                order,
            ) + word_bytes(data.len() as int, order) + word_bytes(orig_len as int, order) + data
                + behind,
            Block::Simple { orig_len, kept } => word_bytes(orig_len as int, order) + kept,
            Block::Other { body, .. } => body,
        }
    }

    /// Its bytes: the length of all of it stands before and behind the body.
    pub open spec fn bytes(self, order: bool) -> Seq<u8> {
        framed(self.kind() as int, self.body(order), order)
    }

    /// Every part has its width, an option list is closed, and what is called other is
    /// neither section, interface nor packet, or too short to be one.
    pub open spec fn fits(self, order: bool) -> bool {
        &&& self.body(order).len() + 12 <= u32::MAX
        &&& match self {
            Block::Interface { options, closing, .. } => {
                &&& listable(options)
                &&& closing.len() < 4 || (closing[0] == 0 && closing[1] == 0)
            },
            Block::Other { kind, body } => {
                ||| kind != 0x0a0d_0d0a && kind != 1 && kind != 3 && kind != 6
                ||| kind == 1 && body.len() < 2
                ||| kind == 3 && body.len() < 4
                ||| kind == 6 && body.len() < 20
                ||| kind == 6 && word(body, 12, order) > body.len() - 20
            },
            _ => true,
        }
    }
}

/// Options that a list can hold: code zero would end it.
pub open spec fn listable(os: Seq<(u16, Seq<u8>)>) -> bool {
    forall|i: int|
        0 <= i < os.len() ==> (#[trigger] os[i]).0 != 0 && os[i].1.len() <= 0xffff
}

pub open spec fn framed(kind: int, body: Seq<u8>, order: bool) -> Seq<u8> {
    word_bytes(kind, order) + word_bytes((12 + body.len()) as int, order) + body + word_bytes(
        (12 + body.len()) as int,
        order,
    )
}

/// The byte order behind a block.
pub open spec fn order_behind(b: Block, order: bool) -> bool {
    match b {
        Block::Section { little, .. } => little,
        _ => order,
    }
}

/// Blocks one after the other. A section header is framed in the order before it.
pub open spec fn laid(bs: Seq<Block>, order: bool) -> Seq<u8>
    decreases bs.len(),
{
    if bs.len() == 0 {
        Seq::empty()
    } else {
        bs[0].bytes(order) + laid(bs.drop_first(), order_behind(bs[0], order))
    }
}

pub open spec fn all_fit(bs: Seq<Block>, order: bool) -> bool
    decreases bs.len(),
{
    bs.len() == 0 || (bs[0].fits(order) && all_fit(
        bs.drop_first(),
        order_behind(bs[0], order),
    ))
}

/// The byte order behind blocks.
pub open spec fn order_at_end(bs: Seq<Block>, order: bool) -> bool
    decreases bs.len(),
{
    if bs.len() == 0 {
        order
    } else {
        order_at_end(bs.drop_first(), order_behind(bs[0], order))
    }
}

/// Too little for another block, or for as much as it says it is.
pub open spec fn torn(tail: Seq<u8>, order: bool) -> bool {
    tail.len() < 12 || word(tail, 4, order) < 12 || word(tail, 4, order) > tail.len()
}

/// Nanoseconds per unit of an interface: what the last `if_tsresol` among its options
/// says; without one a unit is a microsecond.
pub open spec fn rate(os: Seq<(u16, Seq<u8>)>) -> int
    decreases os.len(),
{
    if os.len() == 0 {
        1_000
    } else if os.last().0 == 9 && os.last().1.len() > 0 {
        resolution(os.last().1[0])
    } else {
        rate(os.drop_last())
    }
}

/// The packets in blocks, given the rates of the interfaces so far. A stamp of so many
/// units is so many times the interface's rate, at most what 64 bits hold.
pub open spec fn carried(bs: Seq<Block>, rates: Seq<int>) -> Seq<PacketView>
    decreases bs.len(),
{
    if bs.len() == 0 {
        Seq::empty()
    } else {
        let more = bs.drop_first();
        match bs[0] {
            Block::Section { .. } => carried(more, Seq::empty()),
            Block::Interface { options, .. } => carried(more, rates.push(rate(options))),
            Block::Packet { iface, units, data, orig_len, .. } => seq![
                PacketView {
                    ts_nanos: capped(
                        units * if iface < rates.len() {
                            rates[iface as int]
                        } else {
                            1_000
                        },
                    ),
                    data,
                    orig_len,
                },
            ] + carried(more, rates),
            Block::Simple { orig_len, kept } => seq![
                PacketView {
                    ts_nanos: 0,
                    data: if orig_len < kept.len() {
                        kept.take(orig_len as int)
                    } else {
                        kept
                    },
                    orig_len,
                },
            ] + carried(more, rates),
            Block::Other { .. } => carried(more, rates),
        }
    }
}

pub open spec fn capped(n: int) -> u64 {
    if n <= u64::MAX {
        n as u64
    } else {
        u64::MAX
    }
}

/// A block is read whole, whatever stands behind it.
proof fn lemma_block(st: NgView, b: Block, rest: Seq<u8>)
    requires
        0 <= st.pos <= st.buf.len(),
        st.buf.skip(st.pos) == b.bytes(st.little) + rest,
        b.body(st.little).len() + 12 <= u32::MAX,
    ensures
        st.has_block(),
        st.kind() == b.kind(),
        st.len() == 12 + b.body(st.little).len(),
        st.body() == b.body(st.little),
        st.pos + st.len() <= st.buf.len(),
        st.buf.skip(st.pos + st.len()) == rest,
{
    let s = st.buf.skip(st.pos);
    let body = b.body(st.little);
    let n = body.len() as int;
    lemma_word_len(b.kind() as int, st.little);
    lemma_word_len(12 + n, st.little);
    assert(s.len() == 12 + n + rest.len());
    assert(st.buf.len() == st.pos + s.len());
    assert(st.buf.subrange(st.pos, st.pos + 4) =~= s.subrange(0, 4));
    assert(st.buf.subrange(st.pos + 4, st.pos + 4 + 4) =~= s.subrange(4, 8));
    assert(s.subrange(0, 4) =~= word_bytes(b.kind() as int, st.little));
    assert(s.subrange(4, 8) =~= word_bytes(12 + n, st.little));
    lemma_word_at(st.buf, st.pos, b.kind() as int, st.little);
    lemma_word_at(st.buf, st.pos + 4, 12 + n, st.little);
    assert(st.buf.subrange(st.pos + 8, st.pos + 8 + n) =~= s.subrange(8, 8 + n));
    assert(s.subrange(8, 8 + n) =~= body);
    assert(st.buf.skip(st.pos + 12 + n) =~= s.skip(12 + n));
    assert(s.skip(12 + n) =~= rest);
}

proof fn lemma_section_magic(b: Seq<u8>, little: bool, rest: Seq<u8>)
    requires
        b == word_bytes(0x1a2b_3c4d, little) + rest,
    ensures
        b.len() == 4 + rest.len(),
        (le32(b, 0) == pcapng::BYTE_ORDER_MAGIC) == little,
        (be32(b, 0) == pcapng::BYTE_ORDER_MAGIC) == !little,
{
    let w = word_bytes(0x1a2b_3c4d, little);
    let l = le32_bytes(0x1a2b_3c4d);
    assert(l[0] == 0x4d && l[1] == 0x3c && l[2] == 0x2b && l[3] == 0x1a);
    assert(!little ==> w[0] == l[3] && w[1] == l[2] && w[2] == l[1] && w[3] == l[0]);
    assert(b[0] == w[0] && b[1] == w[1] && b[2] == w[2] && b[3] == w[3]);
}

/// An option list yields the rate its last `if_tsresol` says.
proof fn lemma_options(
    body: Seq<u8>,
    p: int,
    little: bool,
    seen: Seq<(u16, Seq<u8>)>,
    os: Seq<(u16, Seq<u8>)>,
    closing: Seq<u8>,
)
    requires
        0 <= p <= body.len(),
        body.skip(p) == options_bytes(os, little) + closing,
        listable(os),
        closing.len() < 4 || (closing[0] == 0 && closing[1] == 0),
    ensures
        options(body, p, little, rate(seen) as u64) == rate(seen + os) as u64,
    decreases os.len(),
{
    let s = body.skip(p);
    assert(body.len() == p + s.len());
    if os.len() == 0 {
        assert(s =~= closing);
        assert(seen + os =~= seen);
        if closing.len() >= 4 {
            assert(body[p] == s[0] && body[p + 1] == s[1]);
        }
    } else {
        let (code, value) = os[0];
        let n = value.len() as int;
        let more = os.drop_first();
        let now = seen.push(os[0]);
        let rest = options_bytes(more, little) + closing;
        lemma_half_len(code as int, little);
        lemma_half_len(n, little);
        let pad = padding(n);
        assert(4 + n + pad.len() == 4 + (n + 3) / 4 * 4);
        assert(s =~= half_bytes(code as int, little) + half_bytes(n, little) + value + pad + rest);
        assert(body.subrange(p, p + 2) =~= s.subrange(0, 2));
        assert(body.subrange(p + 2, p + 2 + 2) =~= s.subrange(2, 4));
        assert(s.subrange(0, 2) =~= half_bytes(code as int, little));
        assert(s.subrange(2, 4) =~= half_bytes(n, little));
        lemma_half_at(body, p, code as int, little);
        lemma_half_at(body, p + 2, n, little);
        if n > 0 {
            assert(body[p + 4] == s[4] && s[4] == value[0]);
        }
        let next = p + 4 + (n + 3) / 4 * 4;
        assert(body.skip(next) =~= s.skip(next - p));
        assert(s.skip(next - p) =~= rest);
        assert forall|i: int| 0 <= i < more.len() implies (#[trigger] more[i]).0 != 0
            && more[i].1.len() <= 0xffff by {
            assert(more[i] == os[i + 1]);
        }
        assert(now.drop_last() =~= seen);
        lemma_options(body, next, little, now, more, closing);
        assert(now + more =~= seen + os);
    }
}

proof fn lemma_rate_fits(os: Seq<(u16, Seq<u8>)>)
    ensures
        0 <= rate(os) <= 1_000_000_000,
    decreases os.len(),
{
    if os.len() > 0 {
        if os.last().0 == 9 && os.last().1.len() > 0 {
            law_resolution_is_the_power_declared(os.last().1[0]);
        }
        lemma_rate_fits(os.drop_last());
    }
}

/// A unit is the power of ten, or of two, that the option's byte declares, in whole
/// nanoseconds; a power of ten finer than a nanosecond counts as one.
pub proof fn law_resolution_is_the_power_declared(raw: u8)
    ensures
        0 <= resolution(raw) <= 1_000_000_000,
        raw <= 9 ==> resolution(raw) * pow(10, raw as nat) == 1_000_000_000,
        9 <= raw < 128 ==> resolution(raw) == 1,
        raw >= 128 ==> {
            let unit = pow(2, (raw - 128) as nat);
            resolution(raw) * unit <= 1_000_000_000 < (resolution(raw) + 1) * unit
        },
{
    if raw >= 128 {
        let unit = pow(2, (raw - 128) as nat);
        let r = resolution(raw);
        lemma_pow_positive(2, (raw - 128) as nat);
        assert(r == 1_000_000_000int / unit);
        lemma_floor(1_000_000_000, unit);
    } else if raw <= 9 {
        let unit = pow(10, raw as nat);
        lemma_pow_adds(10, raw as nat, (9 - raw) as nat);
        lemma_pow_positive(10, raw as nat);
        lemma_pow_positive(10, (9 - raw) as nat);
        let q = pow(10, (9 - raw) as nat);
        assert(pow(10, 9) == 1_000_000_000) by {
            reveal_with_fuel(pow, 10);
        }
        assert(unit * q == 1_000_000_000);
        assert(1_000_000_000int / unit == q) by (nonlinear_arith)
            requires
                unit * q == 1_000_000_000,
                unit > 0,
        ;
        if raw == 9 {
            assert(pow(10, 0) == 1) by {
                reveal(pow);
            }
        }
        assert(q <= 1_000_000_000) by (nonlinear_arith)
            requires
                unit * q == 1_000_000_000,
                unit > 0,
                q > 0,
        ;
        assert(q * unit == unit * q) by (nonlinear_arith);
    }
}

proof fn lemma_floor(n: int, d: int)
    by (nonlinear_arith)
    requires
        n >= 0,
        d > 0,
    ensures
        0 <= n / d <= n,
        (n / d) * d <= n < (n / d + 1) * d,
{
}

proof fn lemma_interface(
    body: Seq<u8>,
    little: bool,
    linktype: u16,
    reserved: u16,
    snaplen: u32,
    os: Seq<(u16, Seq<u8>)>,
    closing: Seq<u8>,
)
    requires
        body == half_bytes(linktype as int, little) + half_bytes(reserved as int, little)
            + word_bytes(snaplen as int, little) + options_bytes(os, little) + closing,
        listable(os),
        closing.len() < 4 || (closing[0] == 0 && closing[1] == 0),
    ensures
        body.len() >= 8,
        half(body, 0, little) == linktype,
        word(body, 4, little) == snaplen,
        pcapng::interface(body, little).linktype == linktype,
        pcapng::interface(body, little).nanos_per_unit == rate(os),
{
    lemma_half_len(linktype as int, little);
    lemma_half_len(reserved as int, little);
    lemma_word_len(snaplen as int, little);
    assert(body.subrange(0, 2) =~= half_bytes(linktype as int, little));
    assert(body.subrange(4, 8) =~= word_bytes(snaplen as int, little));
    lemma_half_at(body, 0, linktype as int, little);
    lemma_word_at(body, 4, snaplen as int, little);
    assert(body.skip(8) =~= options_bytes(os, little) + closing);
    lemma_options(body, 8, little, Seq::empty(), os, closing);
    assert(Seq::<(u16, Seq<u8>)>::empty() + os =~= os);
    lemma_rate_fits(os);
}

proof fn lemma_packet(
    st: NgView,
    iface: u32,
    units: u64,
    data: Seq<u8>,
    orig_len: u32,
    behind: Seq<u8>,
)
    requires
        st.kind() == 6,
        st.body() == (Block::Packet { iface, units, data, orig_len, behind }).body(st.little),
        data.len() <= u32::MAX,
    ensures
        st.packet() == Some(
            PacketView { ts_nanos: capped(units * st.nanos_per_unit(iface as int)), data, orig_len },
        ),
{
    let b = st.body();
    let hi = units as int / 0x1_0000_0000;
    let lo = units as int % 0x1_0000_0000;
    let n = data.len() as int;
    lemma_word_len(iface as int, st.little);
    lemma_word_len(hi, st.little);
    lemma_word_len(lo, st.little);
    lemma_word_len(n, st.little);
    lemma_word_len(orig_len as int, st.little);
    assert(b.subrange(0, 4) =~= word_bytes(iface as int, st.little));
    assert(b.subrange(4, 8) =~= word_bytes(hi, st.little));
    assert(b.subrange(8, 12) =~= word_bytes(lo, st.little));
    assert(b.subrange(12, 16) =~= word_bytes(n, st.little));
    assert(b.subrange(16, 20) =~= word_bytes(orig_len as int, st.little));
    lemma_word_at(b, 0, iface as int, st.little);
    lemma_word_at(b, 4, hi, st.little);
    lemma_word_at(b, 8, lo, st.little);
    lemma_word_at(b, 12, n, st.little);
    lemma_word_at(b, 16, orig_len as int, st.little);
    assert(hi * 0x1_0000_0000 + lo == units);
    assert(b.subrange(20, 20 + n) =~= data);
}

proof fn lemma_simple(st: NgView, orig_len: u32, kept: Seq<u8>)
    requires
        st.kind() == 3,
        st.body() == word_bytes(orig_len as int, st.little) + kept,
    ensures
        st.packet() == Some(
            PacketView {
                ts_nanos: 0,
                data: if orig_len < kept.len() {
                    kept.take(orig_len as int)
                } else {
                    kept
                },
                orig_len,
            },
        ),
{
    let b = st.body();
    lemma_word_len(orig_len as int, st.little);
    assert(b.subrange(0, 4) =~= word_bytes(orig_len as int, st.little));
    lemma_word_at(b, 0, orig_len as int, st.little);
    if orig_len < kept.len() {
        assert(b.subrange(4, 4 + orig_len) =~= kept.take(orig_len as int));
    } else {
        assert(b.subrange(4, b.len() as int) =~= kept);
    }
}

/// The rates a reader has learned.
spec fn knows(st: NgView, rates: Seq<int>) -> bool {
    &&& st.interfaces.len() == rates.len()
    &&& forall|i: int|
        0 <= i < rates.len() ==> (#[trigger] st.interfaces[i]).nanos_per_unit == rates[i]
}

proof fn lemma_walk(st: NgView, bs: Seq<Block>, rates: Seq<int>, tail: Seq<u8>)
    requires
        0 <= st.pos <= st.buf.len(),
        st.buf.skip(st.pos) == laid(bs, st.little) + tail,
        all_fit(bs, st.little),
        torn(tail, order_at_end(bs, st.little)),
        knows(st, rates),
    ensures
        st.packets() == carried(bs, rates),
    decreases bs.len(),
{
    if bs.len() == 0 {
        let s = st.buf.skip(st.pos);
        assert(s =~= tail);
        assert(st.buf.len() == st.pos + s.len());
        if tail.len() >= 8 {
            assert(forall|i: int| 0 <= i < tail.len() ==> tail[i] == st.buf[st.pos + i]);
            assert(st.buf[st.pos + 4] == tail[4] && st.buf[st.pos + 4 + 1] == tail[5]);
            assert(st.buf[st.pos + 4 + 2] == tail[6] && st.buf[st.pos + 4 + 2 + 1] == tail[7]);
            assert(st.len() == word(tail, 4, st.little));
        }
    } else {
        let more = bs.drop_first();
        let order = order_behind(bs[0], st.little);
        let rest = laid(more, order) + tail;
        assert(st.buf.skip(st.pos) =~= bs[0].bytes(st.little) + rest);
        lemma_block(st, bs[0], rest);
        let next = st.advanced();
        match bs[0] {
            Block::Section { little, rest: r } => {
                lemma_section_magic(st.body(), little, r);
                lemma_walk(next, more, Seq::empty(), tail);
            },
            Block::Interface { linktype, reserved, snaplen, options, closing } => {
                lemma_interface(
                    st.body(),
                    st.little,
                    linktype,
                    reserved,
                    snaplen,
                    options,
                    closing,
                );
                lemma_walk(next, more, rates.push(rate(options)), tail);
            },
            Block::Packet { iface, units, data, orig_len, behind } => {
                lemma_packet(st, iface, units, data, orig_len, behind);
                lemma_walk(next, more, rates, tail);
            },
            Block::Simple { orig_len, kept } => {
                lemma_simple(st, orig_len, kept);
                lemma_walk(next, more, rates, tail);
            },
            Block::Other { .. } => {
                assert(next.interfaces == st.interfaces && next.little == st.little);
                lemma_walk(next, more, rates, tail);
            },
        }
    }
}

/// A block-structured capture holds the packets laid into it, in either byte order:
/// each with its bytes, its length on the wire and its stamp, whose whole 64 bits count
/// in the unit of the interface it names. Other blocks are stepped over, a new section
/// begins with no interfaces, and what was cut off at the end is left out.
pub proof fn law_a_capture_holds_its_packets(
    little: bool,
    rest: Seq<u8>,
    bs: Seq<Block>,
    tail: Seq<u8>,
)
    requires
        rest.len() + 16 <= u32::MAX,
        all_fit(bs, little),
        torn(tail, order_at_end(bs, little)),
    ensures
        ({
            let file = (Block::Section { little, rest }).bytes(little) + laid(bs, little) + tail;
            &&& pcapng::opened(file) is Ok
            &&& pcapng::opened(file)->Ok_0.packets() == carried(bs, Seq::empty())
            &&& capture::packets_in(file) == carried(bs, Seq::empty())
        }),
{
    let head = Block::Section { little, rest };
    let behind = laid(bs, little) + tail;
    let file = head.bytes(little) + laid(bs, little) + tail;
    lemma_opens(little, rest, behind);
    assert(file =~= head.bytes(little) + behind);
    lemma_from_the_start(pcapng::opened(file)->Ok_0, little, rest, bs, tail);
}

proof fn lemma_from_the_start(
    st: NgView,
    little: bool,
    rest: Seq<u8>,
    bs: Seq<Block>,
    tail: Seq<u8>,
)
    requires
        st.pos == 0,
        st.little == little,
        st.buf == (Block::Section { little, rest }).bytes(little) + (laid(bs, little) + tail),
        rest.len() + 16 <= u32::MAX,
        all_fit(bs, little),
        torn(tail, order_at_end(bs, little)),
    ensures
        st.packets() == carried(bs, Seq::empty()),
{
    lemma_first_section(st, little, rest, laid(bs, little) + tail);
    lemma_walk(st.advanced(), bs, Seq::empty(), tail);
}

/// A section header holds no packet, and what is behind it is read from afresh.
proof fn lemma_first_section(st: NgView, little: bool, rest: Seq<u8>, behind: Seq<u8>)
    requires
        st.pos == 0,
        st.little == little,
        st.buf == (Block::Section { little, rest }).bytes(little) + behind,
        rest.len() + 16 <= u32::MAX,
    ensures
        st.packets() == st.advanced().packets(),
        st.advanced().little == little,
        st.advanced().interfaces.len() == 0,
        0 <= st.advanced().pos <= st.advanced().buf.len(),
        st.advanced().buf.skip(st.advanced().pos) == behind,
{
    let head = Block::Section { little, rest };
    lemma_word_len(0x1a2b_3c4d, little);
    assert(st.buf.skip(0) =~= st.buf);
    lemma_block(st, head, behind);
    lemma_section_magic(st.body(), little, rest);
}

/// A section header opens a file in the order it declares.
proof fn lemma_opens(little: bool, rest: Seq<u8>, behind: Seq<u8>)
    requires
        rest.len() + 16 <= u32::MAX,
    ensures
        ({
            let file = (Block::Section { little, rest }).bytes(little) + behind;
            &&& pcapng::opened(file) is Ok
            &&& pcapng::opened(file)->Ok_0.little == little
            &&& pcapng::opened(file)->Ok_0.buf == file
            &&& pcapng::opened(file)->Ok_0.pos == 0
            &&& pcapng::opened(file)->Ok_0.interfaces.len() == 0
            &&& le32(file, 0) == pcapng::BT_SECTION_HEADER
            &&& file.len() >= 16
        }),
{
    let head = Block::Section { little, rest };
    let file = head.bytes(little) + behind;
    let w = word_bytes(0x0a0d_0d0a, little);
    let l = le32_bytes(0x0a0d_0d0a);
    lemma_word_len(0x0a0d_0d0a, little);
    lemma_word_len(0x1a2b_3c4d, little);
    lemma_word_len((12 + head.body(little).len()) as int, little);
    assert(l[0] == 0x0a && l[1] == 0x0d && l[2] == 0x0d && l[3] == 0x0a);
    assert(!little ==> w[0] == l[3] && w[1] == l[2] && w[2] == l[1] && w[3] == l[0]);
    assert(file[0] == w[0] && file[1] == w[1] && file[2] == w[2] && file[3] == w[3]);
    let m = word_bytes(0x1a2b_3c4d, little);
    lemma_section_magic(m, little, Seq::empty());
    assert(m + Seq::<u8>::empty() =~= m);
    assert(file[8] == m[0] && file[9] == m[1] && file[10] == m[2] && file[11] == m[3]);
    assert(le32(file, 8) == le32(m, 0));
    assert(be32(file, 8) == be32(m, 0));
}


/// Packets come one by one in the order they stand in, and once there is none there is
/// none.
pub proof fn law_packets_come_one_by_one(st: NgView)
    requires
        0 <= st.pos <= st.buf.len(),
    ensures
        match st.next() {
            (Some(p), after) => st.packets() == seq![p] + after.packets(),
            (None, after) => st.packets().len() == 0 && after.next() == (
                None::<PacketView>,
                after,
            ),
        },
    decreases st.buf.len() - st.pos,
{
    if st.has_block() && st.packet() is None {
        law_packets_come_one_by_one(st.advanced());
    }
}

/// A capture that opens with an interface is known by that interface's link type and
/// snapshot length before any block is read.
pub proof fn law_the_first_interface_is_known_at_once(
    little: bool,
    rest: Seq<u8>,
    linktype: u16,
    reserved: u16,
    snaplen: u32,
    options: Seq<(u16, Seq<u8>)>,
    closing: Seq<u8>,
    behind: Seq<u8>,
)
    requires
        rest.len() + 16 <= u32::MAX,
        (Block::Interface { linktype, reserved, snaplen, options, closing }).fits(little),
    ensures
        ({
            let section = Block::Section { little, rest };
            let iface = Block::Interface { linktype, reserved, snaplen, options, closing };
            let file = section.bytes(little) + (iface.bytes(little) + behind);
            &&& pcapng::opened(file) is Ok
            &&& pcapng::opened(file)->Ok_0.linktype == linktype
            &&& pcapng::opened(file)->Ok_0.snaplen == snaplen
        }),
{
    let section = Block::Section { little, rest };
    let iface = Block::Interface { linktype, reserved, snaplen, options, closing };
    let more = iface.bytes(little) + behind;
    let file = section.bytes(little) + more;
    lemma_opens(little, rest, more);
    lemma_word_len(0x1a2b_3c4d, little);
    let st = pcapng::opened(file)->Ok_0;
    assert(st.buf.skip(0) =~= st.buf);
    lemma_block(st, section, more);
    let n = st.len();
    let second = NgView { pos: n, ..st };
    lemma_block(second, iface, behind);
    let body = second.body();
    lemma_interface(body, little, linktype, reserved, snaplen, options, closing);
    lemma_shifted(file, n + 8, body, little);
    assert(pcapng::first_interface(file, n, little) == Some((linktype as u32, snaplen)));
    assert(pcapng::first_interface(file, 0, little) == pcapng::first_interface(file, n, little));
}

/// A capture whose first block is no interface has neither link type nor snapshot length
/// to begin with.
pub proof fn law_without_an_interface_nothing_is_known(
    little: bool,
    rest: Seq<u8>,
    b: Block,
    behind: Seq<u8>,
)
    requires
        rest.len() + 16 <= u32::MAX,
        b.fits(little),
        b.kind() != 1,
        b.kind() != 0x0a0d_0d0a,
    ensures
        ({
            let section = Block::Section { little, rest };
            let file = section.bytes(little) + (b.bytes(little) + behind);
            &&& pcapng::opened(file) is Ok
            &&& pcapng::opened(file)->Ok_0.linktype == 0
            &&& pcapng::opened(file)->Ok_0.snaplen == 0
        }),
{
    let section = Block::Section { little, rest };
    let more = b.bytes(little) + behind;
    let file = section.bytes(little) + more;
    lemma_opens(little, rest, more);
    lemma_word_len(0x1a2b_3c4d, little);
    let st = pcapng::opened(file)->Ok_0;
    assert(st.buf.skip(0) =~= st.buf);
    lemma_block(st, section, more);
    let n = st.len();
    let second = NgView { pos: n, ..st };
    lemma_block(second, b, behind);
    assert(pcapng::first_interface(file, n, little) is None);
    assert(pcapng::first_interface(file, 0, little) == pcapng::first_interface(file, n, little));
}

/// Reading inside a block is reading its body.
proof fn lemma_shifted(file: Seq<u8>, o: int, body: Seq<u8>, little: bool)
    requires
        0 <= o,
        body.len() >= 8,
        o + body.len() <= file.len(),
        file.subrange(o, o + body.len()) == body,
    ensures
        half(file, o, little) == half(body, 0, little),
        word(file, o + 4, little) == word(body, 4, little),
{
    assert(forall|i: int| 0 <= i < body.len() ==> body[i] == file[o + i]);
    assert(body[0] == file[o] && body[1] == file[o + 1]);
    assert(body[4] == file[o + 4] && body[5] == file[o + 4 + 1]);
    assert(body[6] == file[o + 4 + 2] && body[7] == file[o + 4 + 2 + 1]);
}

/// An interface is taken in with its unit of time; the first of a section gives the
/// reader its link type and snapshot length, a later one leaves them.
pub proof fn law_an_interface_is_taken_in(
    st: NgView,
    linktype: u16,
    reserved: u16,
    snaplen: u32,
    options: Seq<(u16, Seq<u8>)>,
    closing: Seq<u8>,
)
    requires
        0 <= st.pos <= st.buf.len(),
        (Block::Interface { linktype, reserved, snaplen, options, closing }).fits(st.little),
        st.buf.skip(st.pos) == (Block::Interface {
            linktype,
            reserved,
            snaplen,
            options,
            closing,
        }).bytes(st.little),
    ensures
        ({
            let (p, after) = st.next();
            &&& p is None
            &&& after.pos == st.buf.len()
            &&& after.interfaces.len() == st.interfaces.len() + 1
            &&& after.interfaces.drop_last() == st.interfaces
            &&& after.interfaces.last().linktype == linktype
            &&& after.interfaces.last().nanos_per_unit == rate(options)
            &&& st.interfaces.len() == 0 ==> after.linktype == linktype && after.snaplen
                == snaplen
            &&& st.interfaces.len() > 0 ==> after.linktype == st.linktype && after.snaplen
                == st.snaplen
        }),
{
    let iface = Block::Interface { linktype, reserved, snaplen, options, closing };
    assert(st.buf.skip(st.pos) =~= iface.bytes(st.little) + Seq::<u8>::empty());
    lemma_block(st, iface, Seq::empty());
    lemma_interface(st.body(), st.little, linktype, reserved, snaplen, options, closing);
    let after = st.advanced();
    assert(st.buf.skip(after.pos).len() == 0);
    assert(after.interfaces.drop_last() =~= st.interfaces);
    assert(!after.has_block());
    assert(after.next() == (None::<PacketView>, after));
    assert(st.next() == after.next());
}

/// The four bytes a number stands for when it is reported, high byte first.
proof fn lemma_reported(b: Seq<u8>, o: int)
    requires
        0 <= o,
        o + 4 <= b.len(),
    ensures
        0 <= be32(b, o) <= u32::MAX,
        b.subrange(o, o + 4) == word_bytes(be32(b, o), false),
        le32(b, o) == 0x0a0d_0d0a <==> b.subrange(o, o + 4) == seq![0x0au8, 0x0d, 0x0d, 0x0a],
        le32(b, o) == 0x1a2b_3c4d <==> b.subrange(o, o + 4) == word_bytes(0x1a2b_3c4d, true),
        be32(b, o) == 0x1a2b_3c4d <==> b.subrange(o, o + 4) == word_bytes(0x1a2b_3c4d, false),
{
    let s = b.subrange(o, o + 4);
    let m = be32(b, o);
    let l = le32_bytes(m);
    assert(s[0] == b[o] && s[1] == b[o + 1] && s[2] == b[o + 2] && s[3] == b[o + 3]);
    assert(m == 0x100_0000 * s[0] + 0x1_0000 * s[1] + 0x100 * s[2] + s[3]);
    assert(l[0] == s[3] && l[1] == s[2] && l[2] == s[1] && l[3] == s[0]);
    assert(word_bytes(m, false) =~= s);
    let k = le32_bytes(0x1a2b_3c4d);
    assert(k[0] == 0x4d && k[1] == 0x3c && k[2] == 0x2b && k[3] == 0x1a);
    let t = word_bytes(0x1a2b_3c4d, true);
    let h = word_bytes(0x1a2b_3c4d, false);
    assert(h[0] == k[3] && h[1] == k[2] && h[2] == k[1] && h[3] == k[0]);
    if le32(b, o) == 0x0a0d_0d0a {
        assert(s =~= seq![0x0au8, 0x0d, 0x0d, 0x0a]);
    }
    if le32(b, o) == 0x1a2b_3c4d {
        assert(s =~= t);
    }
    if be32(b, o) == 0x1a2b_3c4d {
        assert(s =~= h);
    }
}

/// A file that does not begin with a section header, or whose section header has no
/// byte order in it, is refused, and the error names the four bytes at fault.
pub proof fn law_a_capture_begins_with_a_section(file: Seq<u8>)
    ensures
        file.len() < 12 ==> pcapng::opened(file) == Err::<NgView, Error>(
            Error::Truncated { need: 12, got: file.len() as usize },
        ),
        file.len() >= 12 ==> {
            let kind = file.subrange(0, 4);
            let magic = file.subrange(8, 12);
            let begins = kind == seq![0x0au8, 0x0d, 0x0d, 0x0a];
            let ordered = magic == word_bytes(0x1a2b_3c4d, true) || magic == word_bytes(
                0x1a2b_3c4d,
                false,
            );
            &&& pcapng::opened(file) is Ok <==> begins && ordered
            &&& pcapng::opened(file) is Err ==> {
                &&& pcapng::opened(file)->Err_0 is BadMagic
                &&& word_bytes(pcapng::opened(file)->Err_0->BadMagic_0 as int, false) == if begins {
                    magic
                } else {
                    kind
                }
            }
        },
{
    if file.len() >= 12 {
        lemma_reported(file, 0);
        lemma_reported(file, 8);
    }
}

/// Which format a capture is in is told by its first four bytes.
pub proof fn law_the_format_is_told_by_the_first_bytes(file: Seq<u8>)
    ensures
        file.len() >= 4 && file.subrange(0, 4) == seq![0x0au8, 0x0d, 0x0d, 0x0a] ==> match pcapng::opened(
            file,
        ) {
            Ok(v) => capture::opened(file) == Ok::<CaptureView, Error>(CaptureView::PcapNg(v)),
            Err(e) => capture::opened(file) == Err::<CaptureView, Error>(e),
        },
        file.len() < 4 || file.subrange(0, 4) != seq![0x0au8, 0x0d, 0x0d, 0x0a] ==> match pcap::opened(
            file,
        ) {
            Ok(v) => capture::opened(file) == Ok::<CaptureView, Error>(CaptureView::Pcap(v)),
            Err(e) => capture::opened(file) == Err::<CaptureView, Error>(e),
        },
{
    if file.len() >= 4 {
        lemma_reported(file, 0);
    }
}

}
