use latency_ladder::book::arena::SLOT;
use latency_ladder::book::{ArenaBook, BTreeLevels, Book};
use latency_ladder::deep::{Price, PriceLevelUpdate, Side, Symbol};

fn upd(side: Side, sym: &str, price: Price, size: u32, complete: bool) -> PriceLevelUpdate {
    PriceLevelUpdate {
        side,
        flags: if complete { 0x01 } else { 0x00 },
        timestamp: 0,
        symbol: Symbol::from_ticker(sym),
        size,
        price,
    }
}

#[test]
fn arena_builds_a_two_sided_book() {
    let mut b = ArenaBook::with_capacity(8);
    b.apply_price_level(&upd(
        Side::Buy,
        "AAPL",
        Price::from_parts(186, 5500),
        100,
        true,
    ));
    b.apply_price_level(&upd(
        Side::Sell,
        "AAPL",
        Price::from_parts(186, 5700),
        200,
        true,
    ));
    let s = Symbol::from_ticker("AAPL");
    assert_eq!(b.best_bid(s), Some((Price::from_parts(186, 5500), 100)));
    assert_eq!(b.best_ask(s), Some((Price::from_parts(186, 5700), 200)));
}

/// The arena's own hazard: side slots are adjacent, so an off-by-one in the
/// stride writes one symbol's level into its neighbour's book.
#[test]
fn adjacent_sides_and_symbols_do_not_bleed() {
    let mut b = ArenaBook::with_capacity(8);
    for (i, t) in ["AAA", "BBB", "CCC", "DDD"].iter().enumerate() {
        for j in 0..SLOT {
            b.apply_price_level(&upd(
                Side::Buy,
                t,
                Price::from_parts(100 + i as i64, j as i64 * 100),
                (i * 10 + j) as u32 + 1,
                true,
            ));
            b.apply_price_level(&upd(
                Side::Sell,
                t,
                Price::from_parts(200 + i as i64, j as i64 * 100),
                (i * 10 + j) as u32 + 1,
                true,
            ));
        }
    }
    for (i, t) in ["AAA", "BBB", "CCC", "DDD"].iter().enumerate() {
        let s = Symbol::from_ticker(t);
        assert_eq!(
            b.best_bid(s).unwrap().0,
            Price::from_parts(100 + i as i64, (SLOT as i64 - 1) * 100),
            "{t} bids"
        );
        assert_eq!(
            b.best_ask(s).unwrap().0,
            Price::from_parts(200 + i as i64, 0),
            "{t} asks"
        );
    }
    assert_eq!(b.total_levels(), 4 * 2 * SLOT);
}

/// Differential test against the reference book, driven across the spill
/// boundary on many symbols at once so stride errors have room to show.
#[test]
fn agrees_with_the_reference_book() {
    let mut arena = ArenaBook::with_capacity(16);
    let mut reference: Book<BTreeLevels> = Book::new();
    let tickers = ["AAA", "BBB", "CCC", "DDD", "EEE", "FFF"];
    let mut state = 0x1234_5678_9ABC_DEF0u64;
    let mut next = || {
        state ^= state << 13;
        state ^= state >> 7;
        state ^= state << 17;
        state
    };

    for step in 0..80_000 {
        let r = next();
        let t = tickers[(r % tickers.len() as u64) as usize];
        let side = if (r >> 8) & 1 == 0 {
            Side::Buy
        } else {
            Side::Sell
        };
        // 20 prices against SLOT = 8 forces repeated spilling and draining.
        let price = Price::from_parts(100, ((r >> 16) % 20) as i64 * 100);
        let size = if r % 10 < 4 {
            0
        } else {
            (r >> 32) as u32 % 5_000 + 1
        };
        let u = upd(side, t, price, size, r % 3 != 0);
        arena.apply_price_level(&u);
        reference.apply_price_level(&u);

        let sym = Symbol::from_ticker(t);
        let rb = reference.get(sym).unwrap();
        assert_eq!(
            arena.best_bid(sym),
            rb.best_bid(),
            "bid diverged at step {step} on {t}"
        );
        assert_eq!(
            arena.best_ask(sym),
            rb.best_ask(),
            "ask diverged at step {step} on {t}"
        );
    }
    assert_eq!(arena.total_levels(), reference.total_levels());
    assert_eq!(arena.total_size(), reference.total_size());
    assert_eq!(arena.stats.updates, reference.stats.updates);
    assert_eq!(arena.stats.deletes, reference.stats.deletes);
    assert_eq!(
        arena.stats.deletes_of_absent,
        reference.stats.deletes_of_absent
    );
    assert_eq!(
        arena.stats.crossed_when_stable,
        reference.stats.crossed_when_stable
    );
    assert_eq!(
        arena.stats.locked_when_stable,
        reference.stats.locked_when_stable
    );
}
