use std::collections::HashSet;

use latency_ladder::deep::{Price, Side, Symbol};
use latency_ladder::pipeline::order::MAX_WIRE_PRICE;
use latency_ladder::pipeline::{
    encode_enter_order, EncodeError, NewOrder, TokenGen, ENTER_ORDER_LEN,
};

fn order(price: Price, shares: u32, side: Side) -> NewOrder {
    NewOrder {
        token: *b"LL000000000001",
        side,
        shares,
        symbol: Symbol::from_ticker("AAPL"),
        price,
    }
}

#[test]
fn encodes_every_field_at_its_documented_offset() {
    let mut buf = [0u8; ENTER_ORDER_LEN];
    let o = order(Price::from_parts(186, 5500), 100, Side::Buy);
    assert_eq!(encode_enter_order(&o, &mut buf).unwrap(), ENTER_ORDER_LEN);

    assert_eq!(buf[0], b'O');
    assert_eq!(&buf[1..15], b"LL000000000001");
    assert_eq!(buf[15], b'B');
    assert_eq!(u32::from_be_bytes(buf[16..20].try_into().unwrap()), 100);
    assert_eq!(&buf[20..28], b"AAPL    ");
    assert_eq!(
        u32::from_be_bytes(buf[28..32].try_into().unwrap()),
        1_865_500
    );
    assert_eq!(&buf[32..36], b"IOCE");
}

#[test]
fn side_selects_the_indicator_byte() {
    let mut buf = [0u8; ENTER_ORDER_LEN];
    encode_enter_order(&order(Price::from_parts(1, 0), 1, Side::Sell), &mut buf).unwrap();
    assert_eq!(buf[15], b'S');
}

/// The price field is 32 bits and the real feed carries prices near its
/// ceiling, so the boundary is worth pinning rather than assuming.
#[test]
fn price_at_and_beyond_the_wire_ceiling() {
    let mut buf = [0u8; ENTER_ORDER_LEN];
    // BRK.A territory: the 2018 session tops out around $294,750.
    let brk = Price::from_raw(2_947_500_000);
    assert!(encode_enter_order(&order(brk, 1, Side::Buy), &mut buf).is_ok());

    let too_big = Price::from_raw(MAX_WIRE_PRICE + 1);
    assert_eq!(
        encode_enter_order(&order(too_big, 1, Side::Buy), &mut buf),
        Err(EncodeError::PriceOutOfRange(MAX_WIRE_PRICE + 1)),
        "truncating would send an order at a wildly wrong price"
    );

    let negative = Price::from_raw(-1);
    assert!(encode_enter_order(&order(negative, 1, Side::Buy), &mut buf).is_err());
}

#[test]
fn tokens_are_unique_and_fixed_width() {
    let mut g = TokenGen::default();
    let mut seen = HashSet::new();
    for _ in 0..5_000 {
        let t = g.next_token();
        assert_eq!(t.len(), 14);
        assert!(t.iter().all(|b| b.is_ascii()), "token must be ASCII");
        assert!(seen.insert(t), "tokens must not repeat");
    }
}
