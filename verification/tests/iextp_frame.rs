use latency_ladder::iextp::frame::{
    parse, ETHERTYPE_IPV4, ETHERTYPE_VLAN, IPPROTO_UDP, UDP_HEADER_LEN,
};
use latency_ladder::iextp::FrameSkip;

/// Offset of the IPv4 header in a VLAN-tagged frame: 14 + 4.
const IP: usize = 18;

/// Build a frame: optional VLAN, IPv4, UDP, then `payload`.
fn frame(vlan: bool, payload: &[u8]) -> Vec<u8> {
    let mut f = vec![0u8; 12];
    if vlan {
        f.extend_from_slice(&ETHERTYPE_VLAN.to_be_bytes());
        f.extend_from_slice(&[0x03, 0xf5]); // priority + VLAN id
    }
    f.extend_from_slice(&ETHERTYPE_IPV4.to_be_bytes());
    let ip_start = f.len();
    f.extend_from_slice(&[0x45, 0, 0, 0, 0, 0, 0, 0, 64, IPPROTO_UDP, 0, 0]);
    f.extend_from_slice(&[10, 0, 0, 1]); // src
    f.extend_from_slice(&[233, 215, 21, 4]); // dst (multicast)
    let udp_len = (UDP_HEADER_LEN + payload.len()) as u16;
    f.extend_from_slice(&[0x28, 0x8a]); // src port
    f.extend_from_slice(&10378u16.to_be_bytes()); // dst port
    f.extend_from_slice(&udp_len.to_be_bytes());
    f.extend_from_slice(&[0, 0]); // checksum
    f.extend_from_slice(payload);
    let total = (f.len() - ip_start) as u16;
    f[ip_start + 2..ip_start + 4].copy_from_slice(&total.to_be_bytes());
    f
}

#[test]
fn untagged_frame_parses() {
    let f = frame(false, b"hello");
    let d = parse(&f).unwrap();
    assert_eq!(d.dst_port, 10378);
    assert_eq!(d.payload, b"hello");
}

/// The trap this module exists for: every real IEX frame is VLAN tagged, and
/// an offset-14 assumption misparses all of them.
#[test]
fn vlan_tagged_frame_parses_identically() {
    let f = frame(true, b"hello");
    let d = parse(&f).unwrap();
    assert_eq!(d.dst_port, 10378);
    assert_eq!(d.payload, b"hello");
    assert_eq!(d.dst_ip, [233, 215, 21, 4]);
}

/// Ethernet pads to a 60-byte minimum. The UDP length field, not the frame
/// length, decides where the payload ends.
#[test]
fn ethernet_padding_is_not_payload() {
    let mut f = frame(true, b"ab");
    f.resize(60, 0);
    assert_eq!(parse(&f).unwrap().payload, b"ab");
}

#[test]
fn non_udp_and_fragments_are_skipped() {
    let mut tcp = frame(true, b"x");
    tcp[IP + 9] = 6; // protocol = TCP
    assert!(matches!(parse(&tcp), Err(FrameSkip::NotUdp)));

    let mut more_frags = frame(true, b"x");
    more_frags[IP + 6] |= 0x20;
    assert!(matches!(parse(&more_frags), Err(FrameSkip::Fragmented)));

    // A non-zero fragment offset is the tail of a datagram, equally unusable.
    let mut tail = frame(true, b"x");
    tail[IP + 7] = 0x10;
    assert!(matches!(parse(&tail), Err(FrameSkip::Fragmented)));
}

#[test]
fn truncated_frames_do_not_panic() {
    let f = frame(true, b"payload");
    for n in 0..f.len() {
        let _ = parse(&f[..n]); // must not panic
    }
}
