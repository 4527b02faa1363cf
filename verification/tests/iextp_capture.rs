use latency_ladder::iextp::{Capture, Error, Format};

#[test]
fn classic_pcap_is_detected() {
    let mut f = Vec::new();
    f.extend_from_slice(&0xd4c3_b2a1u32.to_be_bytes());
    f.extend_from_slice(&2u16.to_le_bytes());
    f.extend_from_slice(&4u16.to_le_bytes());
    f.extend_from_slice(&[0; 8]);
    f.extend_from_slice(&65535u32.to_le_bytes());
    f.extend_from_slice(&1u32.to_le_bytes());
    let c = Capture::open(&f).unwrap();
    assert_eq!(c.format(), Format::Pcap);
    assert_eq!(c.linktype(), 1);
}

#[test]
fn pcapng_is_detected() {
    let mut body = Vec::new();
    body.extend_from_slice(&0x1a2b_3c4du32.to_le_bytes());
    body.extend_from_slice(&1u16.to_le_bytes());
    body.extend_from_slice(&0u16.to_le_bytes());
    body.extend_from_slice(&(-1i64).to_le_bytes());
    let total = 12 + body.len();
    let mut f = Vec::new();
    f.extend_from_slice(&0x0a0d_0d0au32.to_le_bytes());
    f.extend_from_slice(&(total as u32).to_le_bytes());
    f.extend_from_slice(&body);
    f.extend_from_slice(&(total as u32).to_le_bytes());
    assert_eq!(Capture::open(&f).unwrap().format(), Format::PcapNg);
}

#[test]
fn unrecognised_magic_errors() {
    assert!(matches!(Capture::open(&[0u8; 32]), Err(Error::BadMagic(_))));
}
