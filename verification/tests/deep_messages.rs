use latency_ladder::deep::messages::{parse, T_PRICE_LEVEL_BUY, T_PRICE_LEVEL_SELL};
use latency_ladder::deep::{Error, Message, Price, Side, Symbol};

fn plu(kind: u8, flags: u8, sym: &str, size: u32, price: Price) -> Vec<u8> {
    let mut v = vec![kind, flags];
    v.extend_from_slice(&1_500_000_000_000_000_000i64.to_le_bytes());
    v.extend_from_slice(&Symbol::from_ticker(sym).0);
    v.extend_from_slice(&size.to_le_bytes());
    v.extend_from_slice(&price.raw().to_le_bytes());
    v
}

#[test]
fn parses_a_buy_price_level() {
    let raw = plu(
        T_PRICE_LEVEL_BUY,
        0x01,
        "AAPL",
        100,
        Price::from_parts(186, 5500),
    );
    assert_eq!(raw.len(), 30);
    let Message::PriceLevel(m) = parse(&raw).unwrap() else {
        panic!("wrong variant")
    };
    assert_eq!(m.side, Side::Buy);
    assert_eq!(m.symbol.as_str(), Some("AAPL"));
    assert_eq!(m.size, 100);
    assert_eq!(m.price.to_string(), "186.55");
    assert!(m.event_complete());
    assert!(!m.is_delete());
}

#[test]
fn sell_side_is_distinguished_by_type_byte() {
    let raw = plu(
        T_PRICE_LEVEL_SELL,
        0,
        "MSFT",
        500,
        Price::from_parts(101, 0),
    );
    let Message::PriceLevel(m) = parse(&raw).unwrap() else {
        panic!()
    };
    assert_eq!(m.side, Side::Sell);
    assert!(!m.event_complete(), "flag bit clear");
    // Bit 7 must NOT be mistaken for the completion flag.
    let raw = plu(T_PRICE_LEVEL_SELL, 0x80, "MSFT", 1, Price::zero());
    let Message::PriceLevel(m) = parse(&raw).unwrap() else {
        panic!()
    };
    assert!(!m.event_complete(), "0x80 is not the completion bit");
}

/// Zero size deletes the level. Reading it as "a level holding no shares"
/// leaves dead levels in the book and corrupts the touch.
#[test]
fn zero_size_is_a_delete() {
    let raw = plu(
        T_PRICE_LEVEL_BUY,
        0x01,
        "AAPL",
        0,
        Price::from_parts(186, 5500),
    );
    let Message::PriceLevel(m) = parse(&raw).unwrap() else {
        panic!()
    };
    assert!(m.is_delete());
}

/// A known type at an unexpected length means the framing above is wrong.
/// Silently parsing the prefix would yield a confident wrong answer.
#[test]
fn known_type_at_wrong_length_is_an_error() {
    let mut raw = plu(T_PRICE_LEVEL_BUY, 0, "AAPL", 1, Price::zero());
    raw.push(0);
    assert!(matches!(
        parse(&raw),
        Err(Error::WrongLength {
            kind: T_PRICE_LEVEL_BUY,
            expected: 30,
            got: 31
        })
    ));
}

#[test]
fn unknown_type_is_preserved_not_dropped() {
    let raw = [0xEEu8, 1, 2, 3];
    assert!(matches!(
        parse(&raw),
        Ok(Message::Unknown { kind: 0xEE, .. })
    ));
}

#[test]
fn empty_body_errors() {
    assert!(matches!(parse(&[]), Err(Error::Empty)));
}

#[test]
fn truncated_bodies_never_panic() {
    let raw = plu(T_PRICE_LEVEL_BUY, 0, "AAPL", 1, Price::zero());
    for n in 0..raw.len() {
        let _ = parse(&raw[..n]);
    }
}

/// The hot path returns `Message` by value, so its size is a latency
/// concern. Auction Information is 80 bytes on the wire and is borrowed
/// rather than inlined precisely to keep this small; this test fails if
/// someone later inlines it.
#[test]
fn message_stays_small_enough_for_the_hot_path() {
    let size = std::mem::size_of::<Message<'_>>();
    assert!(
        size <= 64,
        "Message grew to {size} bytes; it must fit a cache line"
    );
}
