use latency_ladder::book::{BTreeLevels, Book, Touch};
use latency_ladder::deep::{Price, PriceLevelUpdate, Side, Symbol};
use latency_ladder::pipeline::{Quote, Strategy};

fn upd(side: Side, price: Price, size: u32, complete: bool) -> PriceLevelUpdate {
    PriceLevelUpdate {
        side,
        flags: if complete { 0x01 } else { 0x00 },
        timestamp: 0,
        symbol: Symbol::from_ticker("AAPL"),
        size,
        price,
    }
}

fn book_with(updates: &[PriceLevelUpdate]) -> Book<BTreeLevels> {
    let mut b = Book::new();
    for u in updates {
        b.apply_price_level(u);
    }
    b
}

fn decide(b: &Book<BTreeLevels>, s: &Strategy) -> Option<Quote> {
    let sym = Symbol::from_ticker("AAPL");
    let sb = b.get(sym)?;
    s.on_touch(
        sym,
        Touch {
            bid: sb.best_bid(),
            ask: sb.best_ask(),
            stable: sb.is_stable(),
        },
    )
}

#[test]
fn quotes_when_the_spread_is_wide_and_the_book_is_stable() {
    let b = book_with(&[
        upd(Side::Buy, Price::from_parts(100, 0), 500, true),
        upd(Side::Sell, Price::from_parts(100, 500), 500, true),
    ]);
    let q = decide(&b, &Strategy::default()).expect("should quote");
    assert_eq!(q.side, Side::Buy);
    assert_eq!(q.price, Price::from_parts(100, 0));
    assert_eq!(q.shares, 100);
}

#[test]
fn does_not_quote_inside_a_tight_spread() {
    let b = book_with(&[
        upd(Side::Buy, Price::from_parts(100, 0), 500, true),
        upd(Side::Sell, Price::from_parts(100, 100), 500, true),
    ]);
    assert_eq!(decide(&b, &Strategy::default()), None);
}

/// Quoting off a half-applied book is the failure the event-complete flag
/// exists to prevent, so the strategy must respect it too.
#[test]
fn does_not_quote_while_the_feed_is_mid_event() {
    let b = book_with(&[
        upd(Side::Buy, Price::from_parts(100, 0), 500, true),
        upd(Side::Sell, Price::from_parts(100, 500), 500, false),
    ]);
    assert_eq!(decide(&b, &Strategy::default()), None);
}

#[test]
fn does_not_quote_a_one_sided_book() {
    let b = book_with(&[upd(Side::Buy, Price::from_parts(100, 0), 500, true)]);
    assert_eq!(decide(&b, &Strategy::default()), None);
}
