use latency_ladder::iextp::{Error, PcapReader, LINKTYPE_ETHERNET};

fn contents(mut r: PcapReader<'_>) -> Vec<&[u8]> {
    let mut out = Vec::new();
    while let Some(p) = r.next() {
        out.push(p.data);
    }
    out
}

fn build(magic: u32, packets: &[&[u8]]) -> Vec<u8> {
    let mut v = Vec::new();
    v.extend_from_slice(&magic.to_be_bytes());
    v.extend_from_slice(&2u16.to_le_bytes());
    v.extend_from_slice(&4u16.to_le_bytes());
    v.extend_from_slice(&[0; 8]);
    v.extend_from_slice(&65535u32.to_le_bytes());
    v.extend_from_slice(&1u32.to_le_bytes());
    for p in packets {
        v.extend_from_slice(&7u32.to_le_bytes()); // ts_sec
        v.extend_from_slice(&500u32.to_le_bytes()); // ts_frac
        v.extend_from_slice(&(p.len() as u32).to_le_bytes());
        v.extend_from_slice(&(p.len() as u32).to_le_bytes());
        v.extend_from_slice(p);
    }
    v
}

#[test]
fn pcap_reads_packets_and_linktype() {
    let f = build(0xd4c3_b2a1, &[b"aaa", b"bbbb"]);
    let r = PcapReader::new(&f).unwrap();
    assert_eq!(r.linktype, LINKTYPE_ETHERNET);
    let got = contents(r);
    assert_eq!(got, vec![b"aaa".as_slice(), b"bbbb".as_slice()]);
}

/// Misreading a nanosecond file as microseconds inflates timestamps 1000x.
/// It would not crash, which is exactly why it is worth a test.
#[test]
fn microsecond_and_nanosecond_magics_agree_on_scale() {
    let us = build(0xd4c3_b2a1, &[b"x"]);
    let ns = build(0x4d3c_b2a1, &[b"x"]);
    let a = PcapReader::new(&us).unwrap().next().unwrap();
    let b = PcapReader::new(&ns).unwrap().next().unwrap();
    assert_eq!(a.ts_nanos, 7 * 1_000_000_000 + 500_000);
    assert_eq!(b.ts_nanos, 7 * 1_000_000_000 + 500);
}

#[test]
fn bad_magic_is_an_error() {
    assert!(matches!(
        PcapReader::new(&[0u8; 32]),
        Err(Error::BadMagic(_))
    ));
}

/// An interrupted capture leaves a half-written record. Stop, do not panic.
#[test]
fn truncated_final_record_stops_cleanly() {
    let mut f = build(0xd4c3_b2a1, &[b"aaa", b"bbbb"]);
    f.truncate(f.len() - 2);
    assert_eq!(contents(PcapReader::new(&f).unwrap()).len(), 1);
}

#[test]
fn pcap_every_prefix_is_safe() {
    let f = build(0xd4c3_b2a1, &[b"aaa", b"bbbb"]);
    for n in 0..f.len() {
        if let Ok(r) = PcapReader::new(&f[..n]) {
            let _ = contents(r); // must not panic
        }
    }
}
