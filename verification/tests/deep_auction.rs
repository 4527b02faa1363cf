use latency_ladder::deep::messages::{parse, T_AUCTION_INFORMATION};
use latency_ladder::deep::{Message, Price, Symbol};
use latency_ladder::iextp::Segment;
use latency_ladder::synth::wire::build_segment;

/// Every field of an auction message at its own offset.
fn auction() -> Vec<u8> {
    let mut v = vec![T_AUCTION_INFORMATION, b'O'];
    v.extend_from_slice(&1_500_000_000_000_000_001i64.to_le_bytes());
    v.extend_from_slice(&Symbol::from_ticker("ZVZZT").0);
    v.extend_from_slice(&100_000u32.to_le_bytes());
    v.extend_from_slice(&990_500i64.to_le_bytes());
    v.extend_from_slice(&(-990_600i64).to_le_bytes());
    v.extend_from_slice(&7u32.to_le_bytes());
    v.push(b'B');
    v.resize(80, 0);
    v
}

#[test]
fn an_auction_reads_every_field() {
    let raw = auction();
    let Message::Auction(a) = parse(&raw).unwrap() else {
        panic!("wrong variant")
    };
    assert_eq!(a.auction_type(), b'O');
    assert_eq!(a.timestamp(), 1_500_000_000_000_000_001);
    assert_eq!(a.symbol(), Symbol::from_ticker("ZVZZT"));
    assert_eq!(a.paired_shares(), 100_000);
    assert_eq!(a.reference_price(), Price::from_parts(99, 500));
    assert_eq!(a.indicative_clearing_price(), Price::from_raw(-990_600));
    assert_eq!(a.imbalance_shares(), 7);
    assert_eq!(a.imbalance_side(), b'B');
    assert_eq!(a.raw(), raw.as_slice());
    let m = parse(&raw).unwrap();
    assert_eq!(m.symbol(), Some(Symbol::from_ticker("ZVZZT")));
    assert_eq!(m.timestamp(), Some(1_500_000_000_000_000_001));
}

#[test]
fn an_unknown_message_has_neither_symbol_nor_time() {
    let raw = [0xEEu8, 1, 2, 3];
    let m = parse(&raw).unwrap();
    assert_eq!((m.symbol(), m.timestamp()), (None, None));
}

#[test]
fn prices_know_zero_and_whole_dollars() {
    assert!(Price::zero().is_zero());
    assert!(!Price::from_raw(1).is_zero());
    assert_eq!(Price::from_raw(-25_000).dollars(), -2, "towards zero");
    assert_eq!(Price::from_raw(25_000).dollars(), 2);
    assert_eq!(Price::default(), Price::zero());
    assert_eq!(Price::from_raw(i64::MIN).to_string(), "-922337203685477.5808");
}

#[test]
fn a_size_hint_is_what_was_announced() {
    let raw = build_segment(1, 1, 3, &[1, 0, 0xaa]);
    let s = Segment::parse(&raw).unwrap();
    let mut m = s.messages();
    assert_eq!(m.size_hint(), (0, Some(3)));
    assert_eq!(m.next(), Some([0xaa].as_slice()));
    assert_eq!(m.size_hint(), (0, Some(2)));
    assert_eq!(m.next(), None);
    assert_eq!(m.next(), None);
}
