use std::collections::HashSet;

use latency_ladder::book::{BTreeLevels, Book, Levels, SymbolHasher};
use latency_ladder::deep::{Price, PriceLevelUpdate, Side, Symbol};

fn px(d: i64, c: i64) -> Price {
    Price::from_parts(d, c * 100)
}

fn upd(side: Side, sym: &str, price: Price, size: u32, complete: bool) -> PriceLevelUpdate {
    PriceLevelUpdate {
        side,
        flags: if complete { 0x01 } else { 0x00 },
        timestamp: 0,
        symbol: Symbol::from_ticker(sym),
        size,
        price,
    }
}

fn book() -> Book<BTreeLevels> {
    Book::new()
}

#[test]
fn lib_builds_a_two_sided_book() {
    let mut b = book();
    b.apply_price_level(&upd(Side::Buy, "AAPL", px(186, 55), 100, true));
    b.apply_price_level(&upd(Side::Sell, "AAPL", px(186, 57), 200, true));
    let s = b.get(Symbol::from_ticker("AAPL")).unwrap();
    assert_eq!(s.best_bid(), Some((px(186, 55), 100)));
    assert_eq!(s.best_ask(), Some((px(186, 57), 200)));
    assert_eq!(s.spread(), Some(Price::from_parts(0, 200)));
    assert!(!s.is_crossed());
}

#[test]
fn best_bid_is_the_highest_and_best_ask_the_lowest() {
    let mut b = book();
    for (p, s) in [(px(10, 0), 1), (px(10, 2), 2), (px(9, 98), 3)] {
        b.apply_price_level(&upd(Side::Buy, "X", p, s, true));
        b.apply_price_level(&upd(Side::Sell, "X", p, s, true));
    }
    let s = b.get(Symbol::from_ticker("X")).unwrap();
    assert_eq!(s.best_bid().unwrap().0, px(10, 2), "bid takes the max");
    assert_eq!(s.best_ask().unwrap().0, px(9, 98), "ask takes the min");
}

/// Deleting the touch must expose the next level, not empty the side.
#[test]
fn deleting_the_touch_uncovers_the_next_level() {
    let mut b = book();
    b.apply_price_level(&upd(Side::Buy, "X", px(10, 0), 100, true));
    b.apply_price_level(&upd(Side::Buy, "X", px(10, 1), 200, true));
    b.apply_price_level(&upd(Side::Buy, "X", px(10, 1), 0, true));
    let s = b.get(Symbol::from_ticker("X")).unwrap();
    assert_eq!(s.best_bid(), Some((px(10, 0), 100)));
}

/// The invariant the module exists to protect, and the reason it is gated.
#[test]
fn crossing_counts_only_at_an_event_boundary() {
    let mut b = book();
    // Mid-event: flag clear. A cross here is the feed's business, not a bug.
    b.apply_price_level(&upd(Side::Buy, "X", px(10, 5), 100, false));
    b.apply_price_level(&upd(Side::Sell, "X", px(10, 0), 100, false));
    assert_eq!(b.stats.crossed_mid_event, 1);
    assert_eq!(b.stats.crossed_when_stable, 0);

    // Same cross, but the feed says the event is complete. Now it is real.
    let mut b = book();
    b.apply_price_level(&upd(Side::Buy, "Y", px(10, 5), 100, true));
    b.apply_price_level(&upd(Side::Sell, "Y", px(10, 0), 100, true));
    assert_eq!(b.stats.crossed_when_stable, 1);
}

/// A locked book is not a crossed one. Folding them together would let a
/// real crossing hide inside a pile of benign locks.
#[test]
fn locked_is_counted_separately_from_crossed() {
    let mut b = book();
    b.apply_price_level(&upd(Side::Buy, "X", px(10, 0), 100, true));
    b.apply_price_level(&upd(Side::Sell, "X", px(10, 0), 100, true));
    let s = b.get(Symbol::from_ticker("X")).unwrap();
    assert!(s.is_locked());
    assert!(!s.is_crossed(), "equal prices are locked, not crossed");
    assert_eq!(b.stats.locked_when_stable, 1);
    assert_eq!(b.stats.crossed_when_stable, 0);
}

/// Joining a live feed mid-session means seeing deletes for levels that were
/// created before we started listening.
#[test]
fn delete_of_an_unknown_level_is_counted_not_fatal() {
    let mut b = book();
    b.apply_price_level(&upd(Side::Buy, "X", px(10, 0), 0, true));
    assert_eq!(b.stats.deletes, 1);
    assert_eq!(b.stats.deletes_of_absent, 1);
    assert!(b.get(Symbol::from_ticker("X")).unwrap().bids.is_empty());
}

#[test]
fn symbols_do_not_leak_into_each_other() {
    let mut b = book();
    b.apply_price_level(&upd(Side::Buy, "AAPL", px(186, 55), 100, true));
    b.apply_price_level(&upd(Side::Buy, "MSFT", px(101, 0), 300, true));
    assert_eq!(b.len(), 2);
    assert_eq!(
        b.get(Symbol::from_ticker("AAPL")).unwrap().best_bid(),
        Some((px(186, 55), 100))
    );
    assert_eq!(
        b.get(Symbol::from_ticker("MSFT")).unwrap().best_bid(),
        Some((px(101, 0), 300))
    );
}

#[test]
fn totals_track_the_levels() {
    let mut b = book();
    b.apply_price_level(&upd(Side::Buy, "X", px(10, 0), 100, true));
    b.apply_price_level(&upd(Side::Sell, "X", px(10, 1), 250, true));
    assert_eq!(b.total_size(), 350);
    assert_eq!(b.total_levels(), 2);
    b.apply_price_level(&upd(Side::Buy, "X", px(10, 0), 0, true));
    assert_eq!(b.total_size(), 250);
    assert_eq!(b.total_levels(), 1);
}

/// Low-entropy ASCII keys must still spread. A hasher that collides every
/// four-letter ticker would turn the symbol map into a linked list.
#[test]
fn symbol_hasher_spreads_similar_tickers() {
    let tickers = [
        "AAPL", "AAPM", "AAPN", "BAPL", "CAPL", "SPY", "SPZ", "QQQ", "IWM", "A", "B", "C",
    ];
    let hashes: HashSet<u64> = tickers
        .iter()
        .map(|t| {
            let mut h = SymbolHasher::default();
            h.write_u64(Symbol::from_ticker(t).as_u64());
            h.finish()
        })
        .collect();
    assert_eq!(
        hashes.len(),
        tickers.len(),
        "no collisions among similar tickers"
    );
}
