use latency_ladder::iextp::pcapng::{
    pad4, BT_ENHANCED_PACKET, BT_INTERFACE_DESC, BT_SECTION_HEADER, BYTE_ORDER_MAGIC,
    OPT_IF_TSRESOL,
};
use latency_ladder::iextp::{Error, PcapNgReader};

fn contents<'a>(r: &mut PcapNgReader<'a>) -> Vec<&'a [u8]> {
    let mut out = Vec::new();
    while let Some(p) = r.next() {
        out.push(p.data);
    }
    out
}

fn block(btype: u32, body: &[u8]) -> Vec<u8> {
    let total = 12 + pad4(body.len());
    let mut v = Vec::new();
    v.extend_from_slice(&btype.to_le_bytes());
    v.extend_from_slice(&(total as u32).to_le_bytes());
    v.extend_from_slice(body);
    v.resize(8 + pad4(body.len()), 0);
    v.extend_from_slice(&(total as u32).to_le_bytes());
    v
}

fn shb() -> Vec<u8> {
    let mut b = Vec::new();
    b.extend_from_slice(&BYTE_ORDER_MAGIC.to_le_bytes());
    b.extend_from_slice(&1u16.to_le_bytes());
    b.extend_from_slice(&0u16.to_le_bytes());
    b.extend_from_slice(&(-1i64).to_le_bytes());
    block(BT_SECTION_HEADER, &b)
}

fn idb(tsresol: Option<u8>) -> Vec<u8> {
    let mut b = Vec::new();
    b.extend_from_slice(&1u16.to_le_bytes()); // linktype Ethernet
    b.extend_from_slice(&0u16.to_le_bytes());
    b.extend_from_slice(&65535u32.to_le_bytes());
    if let Some(r) = tsresol {
        b.extend_from_slice(&OPT_IF_TSRESOL.to_le_bytes());
        b.extend_from_slice(&1u16.to_le_bytes());
        b.push(r);
        b.extend_from_slice(&[0, 0, 0]); // pad to 4
        b.extend_from_slice(&0u16.to_le_bytes()); // opt_endofopt
        b.extend_from_slice(&0u16.to_le_bytes());
    }
    block(BT_INTERFACE_DESC, &b)
}

fn epb(units: u64, payload: &[u8]) -> Vec<u8> {
    let mut b = Vec::new();
    b.extend_from_slice(&0u32.to_le_bytes()); // interface id
    b.extend_from_slice(&((units >> 32) as u32).to_le_bytes());
    b.extend_from_slice(&(units as u32).to_le_bytes());
    b.extend_from_slice(&(payload.len() as u32).to_le_bytes());
    b.extend_from_slice(&(payload.len() as u32).to_le_bytes());
    b.extend_from_slice(payload);
    block(BT_ENHANCED_PACKET, &b)
}

#[test]
fn pcapng_reads_packets_and_linktype() {
    let mut f = shb();
    f.extend(idb(Some(6)));
    f.extend(epb(1, b"aaa"));
    f.extend(epb(2, b"bbbb"));
    let mut r = PcapNgReader::new(&f).unwrap();
    let got = contents(&mut r);
    assert_eq!(got, vec![b"aaa".as_slice(), b"bbbb".as_slice()]);
    assert_eq!(r.linktype, 1);
}

/// linktype must be known before iteration, as it is for classic pcap.
/// Returning 0 here is not a harmless default -- 0 is BSD loopback, so the
/// wrong answer is indistinguishable from a real one.
#[test]
fn linktype_is_known_before_iterating() {
    let mut f = shb();
    f.extend(idb(Some(6)));
    f.extend(epb(1, b"aaa"));
    let r = PcapNgReader::new(&f).unwrap();
    assert_eq!(
        r.linktype, 1,
        "linktype available without consuming a packet"
    );
    assert_eq!(r.snaplen, 65535);
}

/// The silent 1000x bug: `if_tsresol` decides the scale, and its absence
/// means microseconds, not nanoseconds.
#[test]
fn timestamp_resolution_is_honoured() {
    for (res, want) in [(Some(6), 1_000_000u64), (Some(9), 1_000), (None, 1_000_000)] {
        let mut f = shb();
        f.extend(idb(res));
        f.extend(epb(1_000, b"x"));
        let p = PcapNgReader::new(&f).unwrap().next().unwrap();
        assert_eq!(p.ts_nanos, want, "if_tsresol {res:?}");
    }
}

/// Blocks pcapng defines but we do not consume must be stepped over, not
/// misread as packets.
#[test]
fn unknown_blocks_are_skipped() {
    let mut f = shb();
    f.extend(idb(Some(6)));
    f.extend(block(0x0000_0004, &[0u8; 16])); // interface statistics
    f.extend(epb(1, b"payload"));
    assert_eq!(contents(&mut PcapNgReader::new(&f).unwrap()).len(), 1);
}

#[test]
fn classic_pcap_magic_is_rejected() {
    let f = [0xd4u8, 0xc3, 0xb2, 0xa1, 0, 0, 0, 0, 0, 0, 0, 0];
    assert!(matches!(PcapNgReader::new(&f), Err(Error::BadMagic(_))));
}

#[test]
fn pcapng_every_prefix_is_safe() {
    let mut f = shb();
    f.extend(idb(Some(6)));
    f.extend(epb(1, b"aaa"));
    for n in 0..f.len() {
        if let Ok(mut r) = PcapNgReader::new(&f[..n]) {
            let _ = contents(&mut r); // must terminate and must not panic
        }
    }
}

/// A block as a big-endian machine writes it.
fn block_be(btype: u32, body: &[u8]) -> Vec<u8> {
    let total = 12 + pad4(body.len());
    let mut v = Vec::new();
    v.extend_from_slice(&btype.to_be_bytes());
    v.extend_from_slice(&(total as u32).to_be_bytes());
    v.extend_from_slice(body);
    v.resize(8 + pad4(body.len()), 0);
    v.extend_from_slice(&(total as u32).to_be_bytes());
    v
}

/// A section header with `extra` bytes of options, an interface in microseconds and
/// one packet, big-endian.
fn section_be(extra: usize, units: u64, payload: &[u8]) -> Vec<u8> {
    let mut head = BYTE_ORDER_MAGIC.to_be_bytes().to_vec();
    head.extend_from_slice(&[0, 1, 0, 0]);
    head.extend_from_slice(&[0xff; 8]);
    head.resize(head.len() + extra, 0);
    let mut iface = vec![0, 101, 0, 0];
    iface.extend_from_slice(&1500u32.to_be_bytes());
    let mut packet = 0u32.to_be_bytes().to_vec();
    packet.extend_from_slice(&((units >> 32) as u32).to_be_bytes());
    packet.extend_from_slice(&(units as u32).to_be_bytes());
    packet.extend_from_slice(&(payload.len() as u32).to_be_bytes());
    packet.extend_from_slice(&(payload.len() as u32).to_be_bytes());
    packet.extend_from_slice(payload);
    let mut v = block_be(BT_SECTION_HEADER, &head);
    v.extend(block_be(BT_INTERFACE_DESC, &iface));
    v.extend(block_be(BT_ENHANCED_PACKET, &packet));
    v
}

/// A file written big-endian throughout.
#[test]
fn a_big_endian_file_is_read() {
    let f = section_be(0, 3, b"bbbb");
    let mut r = PcapNgReader::new(&f).unwrap();
    assert_eq!((r.link_type(), r.snap_length()), (101, 1500));
    let only = r.next().unwrap();
    assert_eq!((only.data, only.ts_nanos), (b"bbbb".as_slice(), 3_000));
    assert!(r.next().is_none());
    assert_eq!(r.position(), f.len());
}

/// A section header's length is read in the order of the section before it: 28
/// written the other way round is far past the end of the file.
#[test]
fn a_header_length_in_the_other_order_ends_the_walk() {
    let mut f = shb();
    f.extend(idb(Some(9)));
    f.extend(epb(7, b"aaa"));
    let whole = f.len();
    f.extend(section_be(0, 3, b"bbbb"));
    let mut r = PcapNgReader::new(&f).unwrap();
    assert_eq!((r.link_type(), r.snap_length()), (1, 65535));
    assert_eq!(r.next().unwrap().data, b"aaa");
    assert!(r.next().is_none());
    assert_eq!(r.position(), whole);
}

/// A header whose length reads the same both ways is passed, and its magic sets the
/// order of the blocks behind it.
#[test]
fn the_magic_sets_the_order_of_what_follows() {
    let mut f = shb();
    f.extend(idb(Some(9)));
    f.extend(epb(7, b"aaa"));
    f.extend(section_be(0x0001_0100 - 28, 3, b"bbbb"));
    let mut r = PcapNgReader::new(&f).unwrap();
    assert_eq!(r.next().unwrap().ts_nanos, 7);
    let second = r.next().unwrap();
    assert_eq!((second.data, second.ts_nanos), (b"bbbb".as_slice(), 3_000));
    assert_eq!((r.link_type(), r.snap_length()), (101, 1500));
    assert!(r.next().is_none());
}
