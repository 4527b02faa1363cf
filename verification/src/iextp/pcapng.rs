//! pcapng reading, for the captures classic pcap cannot express.
//!
//! Two things in this format bite, and both are silent:
//!
//! * Timestamp resolution is per-interface, declared by the `if_tsresol` option
//!   in each Interface Description Block, and it defaults to microseconds when
//!   absent. Reading a microsecond capture as nanoseconds, or the reverse, scales
//!   every timestamp by 1000 without any error.
//! * Blocks are padded to a 4-byte boundary and carry their length both before
//!   and after the body. Walking by the leading length alone works until an
//!   option list is unpadded, at which point the reader slides off by bytes.
//!
//! A block too short to hold its fixed fields is skipped.
use vstd::arithmetic::power::{lemma_pow_increases, pow};
use vstd::prelude::*;
use vstd::slice::slice_subrange;

use crate::bytes::{be16, be32, le16, le32, u16_be, u16_le, u32_be, u32_le};
use crate::iextp::pcap::{Packet, PacketView};
use crate::iextp::Error;

verus! {

pub const BT_SECTION_HEADER: u32 = 0x0a0d_0d0a;

pub const BT_INTERFACE_DESC: u32 = 0x0000_0001;

pub const BT_ENHANCED_PACKET: u32 = 0x0000_0006;

pub const BT_SIMPLE_PACKET: u32 = 0x0000_0003;

/// Byte-order magic inside the Section Header Block.
pub const BYTE_ORDER_MAGIC: u32 = 0x1a2b_3c4d;

/// `if_tsresol`.
pub const OPT_IF_TSRESOL: u16 = 9;

/// Nanoseconds per timestamp unit where an interface does not say: 10^-6.
pub const DEFAULT_NANOS_PER_UNIT: u64 = 1_000;

/// Per-interface state. `if_tsresol` is declared per interface, so a capture
/// merged from several sources may legitimately mix resolutions.
#[derive(Debug, Clone, Copy)]
pub struct Interface {
    pub linktype: u32,
    /// Nanoseconds per timestamp unit.
    pub nanos_per_unit: u64,
}

/// The 16-bit number at `o`.
pub open spec fn half(b: Seq<u8>, o: int, little: bool) -> int {
    if little {
        le16(b, o)
    } else {
        be16(b, o)
    }
}

/// The 32-bit number at `o`.
pub open spec fn word(b: Seq<u8>, o: int, little: bool) -> int {
    if little {
        le32(b, o)
    } else {
        be32(b, o)
    }
}

/// Where a reader stands in its file.
#[verifier::ext_equal]
pub struct NgView {
    pub buf: Seq<u8>,
    pub pos: int,
    pub little: bool,
    pub interfaces: Seq<Interface>,
    pub linktype: u32,
    pub snaplen: u32,
}

/// Nanoseconds per unit as an `if_tsresol` byte declares them: the high bit
/// selects a power of two or of ten, the rest is the negated exponent. Powers of
/// ten finer than a nanosecond are read as nanoseconds.
pub open spec fn resolution(raw: u8) -> int {
    let exp = raw % 128;
    if raw >= 128 {
        1_000_000_000int / pow(2, exp as nat)
    } else if exp < 9 {
        1_000_000_000int / pow(10, exp as nat)
    } else {
        1
    }
}

/// The resolution after the options from `p` on, starting from `sofar`.
pub open spec fn options(body: Seq<u8>, p: int, little: bool, sofar: u64) -> u64
    decreases body.len() + 4 - p,
{
    let code = half(body, p, little);
    let len = half(body, p + 2, little);
    if p + 4 > body.len() || code == 0 || len < 0 || p + 4 + len > body.len() {
        sofar
    } else {
        let next = if code == OPT_IF_TSRESOL && len >= 1 {
            resolution(body[p + 4]) as u64
        } else {
            sofar
        };
        options(body, p + 4 + (len + 3) / 4 * 4, little, next)
    }
}

/// The interface an Interface Description Block describes.
pub open spec fn interface(body: Seq<u8>, little: bool) -> Interface {
    Interface {
        linktype: half(body, 0, little) as u32,
        nanos_per_unit: options(body, 8, little, DEFAULT_NANOS_PER_UNIT),
    }
}

/// The link type and snapshot length of the first interface, looked for from
/// `pos` on. Only section headers may precede it.
pub open spec fn first_interface(buf: Seq<u8>, pos: int, little: bool) -> Option<(u32, u32)>
    decreases buf.len() - pos,
{
    let kind = word(buf, pos, little);
    let len = word(buf, pos + 4, little);
    if pos + 12 > buf.len() || len < 12 || pos + len > buf.len() {
        None
    } else if kind == BT_INTERFACE_DESC {
        if len >= 20 {
            Some(
                (
                    half(buf, pos + 8, little) as u32,
                    word(buf, pos + 12, little) as u32,
                ),
            )
        } else {
            None
        }
    } else if kind == BT_SECTION_HEADER {
        first_interface(buf, pos + len, little)
    } else {
        None
    }
}

/// A reader at the start of a file, or why the file cannot be read.
pub open spec fn opened(buf: Seq<u8>) -> Result<NgView, Error> {
    if buf.len() < 12 {
        Err(Error::Truncated { need: 12, got: buf.len() as usize })
    } else if le32(buf, 0) != BT_SECTION_HEADER {
        Err(Error::BadMagic(be32(buf, 0) as u32))
    } else if le32(buf, 8) != BYTE_ORDER_MAGIC && be32(buf, 8) != BYTE_ORDER_MAGIC {
        Err(Error::BadMagic(be32(buf, 8) as u32))
    } else {
        let little = le32(buf, 8) == BYTE_ORDER_MAGIC;
        let (linktype, snaplen) = match first_interface(buf, 0, little) {
            Some(pair) => pair,
            None => (0u32, 0u32),
        };
        Ok(NgView { buf, pos: 0, little, interfaces: Seq::empty(), linktype, snaplen })
    }
}

impl NgView {
    /// The type of the block at the cursor.
    pub open spec fn kind(self) -> int {
        word(self.buf, self.pos, self.little)
    }

    /// The length of the block at the cursor, in the byte order of the section
    /// before it: a section header's own length is read ahead of its magic.
    pub open spec fn len(self) -> int {
        word(self.buf, self.pos + 4, self.little)
    }

    /// Whether a whole block is left. A block is at minimum its type and its
    /// length twice; anything shorter would not advance.
    pub open spec fn has_block(self) -> bool {
        &&& self.pos + 8 <= self.buf.len()
        &&& self.len() >= 12
        &&& self.pos + self.len() <= self.buf.len()
    }

    /// The body of the block at the cursor.
    pub open spec fn body(self) -> Seq<u8> {
        self.buf.subrange(self.pos + 8, self.pos + self.len() - 4)
    }

    /// Nanoseconds per unit of the given interface.
    pub open spec fn nanos_per_unit(self, id: int) -> u64 {
        if id < self.interfaces.len() {
            self.interfaces[id].nanos_per_unit
        } else {
            DEFAULT_NANOS_PER_UNIT
        }
    }

    /// The packet in the block at the cursor, if that block holds one.
    pub open spec fn packet(self) -> Option<PacketView> {
        let b = self.body();
        if self.kind() == BT_ENHANCED_PACKET {
            let units = word(b, 4, self.little) * 0x1_0000_0000 + word(b, 8, self.little);
            let cap = word(b, 12, self.little);
            if b.len() < 20 || 20 + cap > b.len() {
                None
            } else {
                let nanos = units * self.nanos_per_unit(word(b, 0, self.little));
                Some(
                    PacketView {
                        ts_nanos: if nanos <= u64::MAX {
                            nanos as u64
                        } else {
                            u64::MAX
                        },
                        data: b.subrange(20, 20 + cap),
                        orig_len: word(b, 16, self.little) as u32,
                    },
                )
            }
        } else if self.kind() == BT_SIMPLE_PACKET && b.len() >= 4 {
            let orig = word(b, 0, self.little);
            let cap = if orig < b.len() - 4 {
                orig
            } else {
                b.len() - 4
            };
            Some(
                PacketView { ts_nanos: 0, data: b.subrange(4, 4 + cap), orig_len: orig as u32 },
            )
        } else {
            None
        }
    }

    /// The reader after the block at the cursor. A new section's magic sets the byte
    /// order of the blocks behind its header, and the interfaces are forgotten; an
    /// interface description adds one.
    pub open spec fn advanced(self) -> NgView {
        let b = self.body();
        let moved = NgView { pos: self.pos + self.len(), ..self };
        if self.kind() == BT_SECTION_HEADER {
            NgView {
                little: if b.len() >= 4 {
                    le32(b, 0) == BYTE_ORDER_MAGIC
                } else {
                    self.little
                },
                interfaces: Seq::empty(),
                ..moved
            }
        } else if self.kind() == BT_INTERFACE_DESC && b.len() >= 2 {
            let first = self.interfaces.len() == 0;
            let iface = interface(b, self.little);
            NgView {
                interfaces: self.interfaces.push(iface),
                linktype: if first {
                    iface.linktype
                } else {
                    self.linktype
                },
                snaplen: if !first {
                    self.snaplen
                } else if b.len() >= 8 {
                    word(b, 4, self.little) as u32
                } else {
                    0
                },
                ..moved
            }
        } else {
            moved
        }
    }

    /// The next packet and the reader after it; without one, the reader where it
    /// stopped.
    pub open spec fn next(self) -> (Option<PacketView>, NgView)
        decreases self.buf.len() - self.pos,
    {
        if !self.has_block() {
            (None, self)
        } else {
            match self.packet() {
                Some(p) => (Some(p), self.advanced()),
                None => self.advanced().next(),
            }
        }
    }

    /// Every packet from the cursor on.
    pub open spec fn packets(self) -> Seq<PacketView>
        decreases self.buf.len() - self.pos,
    {
        if !self.has_block() {
            Seq::empty()
        } else {
            match self.packet() {
                Some(p) => seq![p] + self.advanced().packets(),
                None => self.advanced().packets(),
            }
        }
    }
}

/// A borrowed pcapng reader.
pub struct PcapNgReader<'a> {
    buf: &'a [u8],
    pos: usize,
    little: bool,
    interfaces: Vec<Interface>,
    /// Linktype of the first interface, for reporting.
    pub linktype: u32,
    pub snaplen: u32,
}

impl<'a> View for PcapNgReader<'a> {
    type V = NgView;

    closed spec fn view(&self) -> NgView {
        NgView {
            buf: self.buf@,
            pos: self.pos as int,
            little: self.little,
            interfaces: self.interfaces@,
            linktype: self.linktype,
            snaplen: self.snaplen,
        }
    }
}

fn u16_at(b: &[u8], o: usize, little: bool) -> (r: u16)
    requires
        o + 2 <= b.len(),
    ensures
        r == half(b@, o as int, little),
{
    if little {
        u16_le(b, o)
    } else {
        u16_be(b, o)
    }
}

fn u32_at(b: &[u8], o: usize, little: bool) -> (r: u32)
    requires
        o + 4 <= b.len(),
    ensures
        r == word(b@, o as int, little),
{
    if little {
        u32_le(b, o)
    } else {
        u32_be(b, o)
    }
}

/// Round a length up to the next 4-byte boundary.
pub fn pad4(n: usize) -> (r: usize)
    requires
        n + 3 <= usize::MAX,
    ensures
        r == (n + 3) / 4 * 4,
{
    (n + 3) / 4 * 4
}

/// A billion over a power, rounded down.
fn billion_over(base: u64, exp: u8) -> (r: u64)
    requires
        2 <= base <= 10,
    ensures
        r == 1_000_000_000int / pow(base as int, exp as nat),
{
    let mut p: u64 = 1;
    let mut i: u8 = 0;
    assert(pow(base as int, 0) == 1) by {
        vstd::arithmetic::power::lemma_pow0(base as int);
    }
    while i < exp && p <= 1_000_000_000
        invariant
            2 <= base <= 10,
            i <= exp,
            1 <= p <= 10_000_000_000,
            p == pow(base as int, i as nat),
        decreases exp - i,
    {
        assert(pow(base as int, (i + 1) as nat) == base * pow(base as int, i as nat)) by {
            reveal(pow);
        }
        assert(base * p <= 10 * p) by (nonlinear_arith)
            requires
                base <= 10,
        ;
        assert(base * p >= p) by (nonlinear_arith)
            requires
                base >= 2,
        ;
        p = base * p;
        i = i + 1;
    }
    if i < exp {
        proof {
            lemma_pow_increases(base as nat, i as nat, exp as nat);
            let q = pow(base as int, exp as nat);
            assert(1_000_000_000int / q == 0) by (nonlinear_arith)
                requires
                    q > 1_000_000_000,
            ;
        }
        return 0;
    }
    1_000_000_000 / p
}

fn read_resolution(raw: u8) -> (r: u64)
    ensures
        r == resolution(raw),
{
    let exp: u8 = raw % 128;
    if raw >= 128 {
        billion_over(2, exp)
    } else if exp < 9 {
        billion_over(10, exp)
    } else {
        1
    }
}

/// Read the options of an Interface Description Block for its resolution.
fn read_options(body: &[u8], little: bool) -> (r: u64)
    ensures
        r == options(body@, 8, little, DEFAULT_NANOS_PER_UNIT),
{
    let mut nanos: u64 = DEFAULT_NANOS_PER_UNIT;
    let mut p: usize = 8;
    while p <= body.len() && body.len() - p >= 4
        invariant
            options(body@, p as int, little, nanos) == options(
                body@,
                8,
                little,
                DEFAULT_NANOS_PER_UNIT,
            ),
        decreases body.len() + 4 - p,
    {
        let code: u16 = u16_at(body, p, little);
        let len: usize = u16_at(body, p + 2, little) as usize;
        if code == 0 {
            return nanos;
        }
        if len > body.len() - p - 4 {
            return nanos;
        }
        if code == OPT_IF_TSRESOL && len >= 1 {
            nanos = read_resolution(body[p + 4]);
        }
        // The padding of the last option may reach past a cut-off body.
        let step: usize = 4 + pad4(len);
        if step > body.len() - p {
            assert(options(body@, p + step, little, nanos) == nanos);
            return nanos;
        }
        p = p + step;
    }
    nanos
}

impl<'a> PcapNgReader<'a> {
    /// The cursor is inside the file.
    pub open spec fn wf(self) -> bool {
        0 <= self@.pos <= self@.buf.len()
    }

    pub fn new(buf: &'a [u8]) -> (r: Result<PcapNgReader<'a>, Error>)
        ensures
            match r {
                Ok(p) => p.wf() && opened(buf@) == Ok::<NgView, Error>(p@),
                Err(e) => opened(buf@) == Err::<NgView, Error>(e),
            },
    {
        if buf.len() < 12 {
            return Err(Error::Truncated { need: 12, got: buf.len() });
        }
        // The block type is byte-order independent by construction; the byte
        // order magic that follows tells us how to read everything else.

        if u32_le(buf, 0) != BT_SECTION_HEADER {
            return Err(Error::BadMagic(u32_be(buf, 0)));
        }
        let little: bool = u32_le(buf, 8) == BYTE_ORDER_MAGIC;
        if !little && u32_be(buf, 8) != BYTE_ORDER_MAGIC {
            return Err(Error::BadMagic(u32_be(buf, 8)));
        }
        let (linktype, snaplen) = match Self::prescan_first_idb(buf, little) {
            Some(pair) => pair,
            None => (0, 0),
        };
        Ok(PcapNgReader { buf, pos: 0, little, interfaces: Vec::new(), linktype, snaplen })
    }

    /// The link type and snapshot length of the first Interface Description
    /// Block.
    ///
    /// Classic pcap carries both in its global header, so they are known the
    /// moment the file is opened. pcapng puts them in a block that iteration has
    /// to reach. A short forward scan restores the classic-pcap contract without
    /// disturbing the iteration cursor.
    fn prescan_first_idb(buf: &[u8], little: bool) -> (r: Option<(u32, u32)>)
        ensures
            r == first_interface(buf@, 0, little),
    {
        let mut pos: usize = 0;
        while buf.len() - pos >= 12
            invariant
                pos <= buf@.len(),
                first_interface(buf@, pos as int, little) == first_interface(buf@, 0, little),
            decreases buf@.len() - pos,
        {
            let kind: u32 = u32_at(buf, pos, little);
            let len: usize = u32_at(buf, pos + 4, little) as usize;
            if len < 12 || len > buf.len() - pos {
                return None;
            }
            if kind == BT_INTERFACE_DESC {
                if len >= 20 {
                    return Some(
                        (u16_at(buf, pos + 8, little) as u32, u32_at(buf, pos + 12, little)),
                    );
                }
                return None;
            }
            if kind != BT_SECTION_HEADER {
                return None;
            }
            pos = pos + len;
        }
        None
    }

    /// Take in an Interface Description Block, honouring `if_tsresol`.
    fn read_idb(&mut self, body: &[u8])
        requires
            body@.len() >= 2,
        ensures
            final(self)@ == (NgView {
                interfaces: old(self)@.interfaces.push(interface(body@, old(self)@.little)),
                linktype: if old(self)@.interfaces.len() == 0 {
                    interface(body@, old(self)@.little).linktype
                } else {
                    old(self)@.linktype
                },
                snaplen: if old(self)@.interfaces.len() != 0 {
                    old(self)@.snaplen
                } else if body@.len() >= 8 {
                    word(body@, 4, old(self)@.little) as u32
                } else {
                    0
                },
                ..old(self)@
            }),
    {
        let iface = Interface {
            linktype: u16_at(body, 0, self.little) as u32,
            nanos_per_unit: read_options(body, self.little),
        };
        if self.interfaces.len() == 0 {
            self.linktype = iface.linktype;
            self.snaplen = if body.len() >= 8 {
                u32_at(body, 4, self.little)
            } else {
                0
            };
        }
        self.interfaces.push(iface);
    }

    /// Bytes consumed so far.
    pub fn position(&self) -> (r: usize)
        ensures
            r == self@.pos,
    {
        self.pos
    }

    /// The link-layer type of the first interface.
    pub fn link_type(&self) -> (r: u32)
        ensures
            r == self@.linktype,
    {
        self.linktype
    }

    /// The snapshot length of the first interface.
    pub fn snap_length(&self) -> (r: u32)
        ensures
            r == self@.snaplen,
    {
        self.snaplen
    }

    /// The packet in the block at the cursor, if that block holds one.
    fn block_packet(&self, kind: u32, body: &'a [u8]) -> (r: Option<Packet<'a>>)
        requires
            self@.has_block(),
            kind == self@.kind(),
            body@ == self@.body(),
        ensures
            match r {
                Some(p) => self@.packet() == Some(p@),
                None => self@.packet() is None,
            },
    {
        if kind == BT_ENHANCED_PACKET {
            if body.len() < 20 {
                return None;
            }
            let iface_id: usize = u32_at(body, 0, self.little) as usize;
            let ts_hi: u64 = u32_at(body, 4, self.little) as u64;
            let ts_lo: u64 = u32_at(body, 8, self.little) as u64;
            let cap_len: usize = u32_at(body, 12, self.little) as usize;
            let orig_len: u32 = u32_at(body, 16, self.little);
            if cap_len > body.len() - 20 {
                return None;
            }
            let units: u64 = ts_hi * 0x1_0000_0000 + ts_lo;
            let nanos_per_unit: u64 = if iface_id < self.interfaces.len() {
                self.interfaces[iface_id].nanos_per_unit
            } else {
                DEFAULT_NANOS_PER_UNIT
            };
            let ts_nanos: u64 = match units.checked_mul(nanos_per_unit) {
                Some(n) => n,
                None => u64::MAX,
            };
            return Some(
                Packet { ts_nanos, data: slice_subrange(body, 20, 20 + cap_len), orig_len },
            );
        }
        if kind == BT_SIMPLE_PACKET {
            if body.len() < 4 {
                return None;
            }
            let orig_len: u32 = u32_at(body, 0, self.little);
            let room: usize = body.len() - 4;
            let cap_len: usize = if (orig_len as usize) < room {
                orig_len as usize
            } else {
                room
            };
            // Simple packet blocks carry no timestamp.
            return Some(
                Packet { ts_nanos: 0, data: slice_subrange(body, 4, 4 + cap_len), orig_len },
            );
        }
        None
    }

    /// The next packet, if there is one.
    pub fn next(&mut self) -> (r: Option<Packet<'a>>)
        requires
            old(self).wf(),
        ensures
            final(self).wf(),
            final(self)@ == old(self)@.next().1,
            match r {
                Some(p) => old(self)@.next().0 == Some(p@) && old(self)@.packets() == seq![p@]
                    + final(self)@.packets(),
                None => old(self)@.next().0 is None && old(self)@.packets().len() == 0
                    && !final(self)@.has_block(),
            },
    {
        while self.buf.len() - self.pos >= 8
            invariant
                self.wf(),
                self@.next() == old(self)@.next(),
                self@.packets() == old(self)@.packets(),
            decreases self@.buf.len() - self@.pos,
        {
            let kind: u32 = u32_at(self.buf, self.pos, self.little);
            let len: usize = u32_at(self.buf, self.pos + 4, self.little) as usize;
            if len < 12 || len > self.buf.len() - self.pos {
                return None;
            }
            let body = slice_subrange(self.buf, self.pos + 8, self.pos + len - 4);
            let found = self.block_packet(kind, body);
            let ghost before = self@;
            self.pos = self.pos + len;
            if kind == BT_SECTION_HEADER {
                if body.len() >= 4 {
                    self.little = u32_le(body, 0) == BYTE_ORDER_MAGIC;
                }
                self.interfaces.clear();
            } else if kind == BT_INTERFACE_DESC && body.len() >= 2 {
                self.read_idb(body);
            }
            assert(self@ =~= before.advanced());
            if found.is_some() {
                return found;
            }
        }
        None
    }
}


/// What a reader says of its file is what it holds of it.
proof fn law_a_reader_is_its_fields(r: PcapNgReader<'_>)
    ensures
        r@.linktype == r.linktype,
        r@.snaplen == r.snaplen,
{
}

}
