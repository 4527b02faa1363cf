use latency_ladder::deep::messages::parse as parse_message;
use latency_ladder::deep::{Error as DeepError, Price, Side, Symbol};
use latency_ladder::iextp::frame::parse as parse_frame;
use latency_ladder::iextp::{Capture, Error, FrameSkip, PcapNgReader, PcapReader, Segment};
use latency_ladder::pipeline::{encode_enter_order, EncodeError, NewOrder, ENTER_ORDER_LEN};

/// An untagged IPv4/UDP frame with an empty payload.
fn empty_datagram() -> Vec<u8> {
    let mut f = vec![0u8; 12];
    f.extend_from_slice(&[0x08, 0x00]);
    f.extend_from_slice(&[0x45, 0, 0, 28, 0, 0, 0, 0, 64, 17, 0, 0]);
    f.extend_from_slice(&[10, 0, 0, 1, 233, 215, 21, 4]);
    f.extend_from_slice(&[0x28, 0x8a, 0x28, 0x8a, 0, 8, 0, 0]);
    f
}

#[test]
fn message_errors_say_what_went_wrong() {
    let empty = parse_message(&[]).unwrap_err();
    assert_eq!(empty, DeepError::Empty);
    assert_eq!(empty.to_string(), "empty message body");

    let wrong = parse_message(&[0x38, 1, 2]).unwrap_err();
    assert_eq!(
        wrong,
        DeepError::WrongLength {
            kind: 0x38,
            expected: 30,
            got: 3
        }
    );
    assert_eq!(
        wrong.to_string(),
        "message type 0x38 is 3 bytes, expected 30"
    );
}

#[test]
fn capture_errors_say_what_went_wrong() {
    let bad = Capture::open(&[0xde, 0xad, 0xbe, 0xef, 0, 0, 0, 0, 0, 0, 0, 0, 0, 0, 0, 0, 0, 0, 0, 0, 0, 0, 0, 0])
        .err()
        .unwrap();
    assert_eq!(bad, Error::BadMagic(0xdead_beef));
    assert_eq!(bad.to_string(), "not a pcap file: magic 0xdeadbeef");

    let short = PcapReader::new(&[0xd4, 0xc3, 0xb2, 0xa1]).err().unwrap();
    assert_eq!(short, Error::Truncated { need: 24, got: 4 });
    assert_eq!(short.to_string(), "truncated: needed 24 bytes, have 4");

    assert!(matches!(
        PcapNgReader::new(&[0x0a, 0x0d, 0x0d, 0x0a]),
        Err(Error::Truncated { .. })
    ));
    assert!(matches!(
        Segment::parse(&[1, 0, 4, 0x80]),
        Err(Error::Truncated { need: 40, got: 4 })
    ));
}

#[test]
fn frames_that_are_not_feed_traffic_say_why() {
    assert!(parse_frame(&empty_datagram()).unwrap().payload.is_empty());
    assert!(matches!(parse_frame(&[0u8; 10]), Err(FrameSkip::TooShort)));

    let mut arp = empty_datagram();
    arp[12..14].copy_from_slice(&[0x08, 0x06]);
    assert!(matches!(parse_frame(&arp), Err(FrameSkip::NotIpv4)));

    let mut tcp = empty_datagram();
    tcp[14 + 9] = 6;
    assert!(matches!(parse_frame(&tcp), Err(FrameSkip::NotUdp)));

    let mut fragment = empty_datagram();
    fragment[14 + 6] = 0x20;
    assert!(matches!(parse_frame(&fragment), Err(FrameSkip::Fragmented)));
}

#[test]
fn orders_that_do_not_fit_say_why() {
    let order = NewOrder {
        token: *b"LL000000000001",
        side: Side::Buy,
        shares: 1,
        symbol: Symbol::from_ticker("AAPL"),
        price: Price::from_raw(-1),
    };
    let mut buf = [0u8; ENTER_ORDER_LEN];
    let e = encode_enter_order(&order, &mut buf).unwrap_err();
    assert_eq!(e, EncodeError::PriceOutOfRange(-1));
    assert_eq!(e.to_string(), "price -1 does not fit a 32-bit wire price");
    assert_eq!(buf, [0u8; ENTER_ORDER_LEN], "nothing is written");
    assert_eq!(
        EncodeError::SizeOutOfRange(4_294_967_296).to_string(),
        "size 4294967296 does not fit a 32-bit share count"
    );
}

/// A symbol that is not text is shown as its bytes.
#[test]
fn a_symbol_that_is_not_text_is_shown_as_bytes() {
    let s = Symbol::from_bytes([0xff, 0xfe, 0x20, 0x20, 0x20, 0x20, 0x20, 0x20]);
    assert_eq!(s.as_str(), None);
    assert_eq!(s.to_string(), "[ff, fe, 20, 20, 20, 20, 20, 20]");
    // Text, but not ASCII.
    let accented = Symbol::from_bytes([0xc3, 0xa9, 0x20, 0x20, 0x20, 0x20, 0x20, 0x20]);
    assert_eq!(accented.as_str(), None);
    assert_eq!(accented.to_string(), "[c3, a9, 20, 20, 20, 20, 20, 20]");
    assert_eq!(Symbol::from_ticker("caf\u{e9}").as_str(), None);
    assert_eq!(Symbol::default().0, [0u8; 8]);
    assert_eq!(Symbol::default().as_str(), Some("\0\0\0\0\0\0\0\0"));
}
