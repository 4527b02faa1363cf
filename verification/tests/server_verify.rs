use latency_ladder::deep::{Price, PriceLevelUpdate, Side, Symbol};
use latency_ladder::server::verify::{find, kind_name, readable, verify, Sample};
use latency_ladder::synth::wire::{
    build_segment, write_packet, write_pcap_header, write_price_level,
};
use latency_ladder::synth::{generate, Config};

fn sample(bytes: Vec<u8>) -> Sample {
    Sample {
        date: "2017-11-16".to_string(),
        bytes,
    }
}

/// A capture of segments, each a first sequence, a message count and a block.
fn capture(segments: &[(i64, u16, Vec<u8>)]) -> Vec<u8> {
    let mut out = Vec::new();
    write_pcap_header(&mut out);
    for (first, count, block) in segments {
        let seg = build_segment(1, *first, *count, block);
        write_packet(&mut out, 1_500_000_000_000_000_000, &seg);
    }
    out
}

fn update(side: Side, ticker: &str, cents: i64, size: u32) -> Vec<u8> {
    let mut block = Vec::new();
    write_price_level(
        &mut block,
        &PriceLevelUpdate {
            side,
            flags: 1,
            timestamp: 0,
            symbol: Symbol::from_ticker(ticker),
            size,
            price: Price::from_parts(0, cents * 100),
        },
    );
    block
}

fn prefixed(body: &[u8]) -> Vec<u8> {
    let mut v = (body.len() as u16).to_le_bytes().to_vec();
    v.extend_from_slice(body);
    v
}

#[test]
fn a_generated_session_is_understood() {
    let cap = generate(&Config {
        segments: 2_000,
        ..Default::default()
    });
    let bytes = cap.bytes.len();
    let s = sample(cap.bytes);
    assert!(readable(&s.bytes));
    let v = verify(&s);
    assert_eq!(v.date, "2017-11-16");
    assert_eq!(v.format, "classic pcap");
    assert_eq!(v.bytes, bytes);
    assert_eq!(v.packets, cap.segments_emitted);
    assert_eq!(v.messages, cap.messages_published);
    assert_eq!(v.price_updates, cap.messages_published);
    assert_eq!((v.errors, v.unknown, v.trades), (0, 0, 0));
    assert_eq!((v.gaps, v.duplicates, v.crossed), (0, 0, 0));
    assert_eq!(v.symbols, 8);
    assert_eq!(v.types.iter().map(|(_, n)| n).sum::<u64>(), v.messages);
    assert_eq!(v.types.len(), 2);
    assert!(v.types[0].1 >= v.types[1].1);
    assert_eq!(v.nanos, 0);
    let tickers: Vec<&str> = v.quotes.iter().map(|q| q.symbol.as_str()).collect();
    assert!(tickers.windows(2).all(|w| w[0] < w[1]), "{tickers:?}");
}

#[test]
fn what_is_in_neither_format_is_unreadable() {
    let s = sample(vec![1, 2, 3, 4, 5]);
    assert!(readable(&s.bytes));
    let v = verify(&s);
    assert_eq!(v.format, "unreadable");
    assert_eq!(v.bytes, 5);
    assert_eq!((v.packets, v.messages), (0, 0));
    assert!(v.low.is_empty() && v.types.is_empty() && v.quotes.is_empty());
}

/// Unknown types are counted, wrong lengths are errors, empty bodies are neither.
#[test]
fn nothing_is_passed_over_in_silence() {
    let mut block = prefixed(&[0x99, 1, 2]);
    block.extend(prefixed(&[]));
    block.extend(prefixed(&[0x38, 1]));
    block.extend(update(Side::Buy, "AAPL", 150, 7));
    block.extend(update(Side::Buy, "AAPL", 150, 0));
    let v = verify(&sample(capture(&[(1, 5, block)])));
    assert_eq!(v.messages, 3);
    assert_eq!(v.unknown, 1);
    assert_eq!(v.errors, 1);
    assert_eq!(v.price_updates, 2);
    assert_eq!(v.symbols, 1);
    assert_eq!((v.low.as_str(), v.high.as_str()), ("1.50", "1.50"));
    assert_eq!(
        v.types,
        vec![
            ("0x38 Price Level Update (buy)".to_string(), 2),
            ("0x99 unknown".to_string(), 1),
        ]
    );
}

#[test]
fn copies_and_gaps_are_counted_apart() {
    let one = update(Side::Buy, "AAPL", 150, 7);
    let v = verify(&sample(capture(&[
        (1, 1, one.clone()),
        (1, 1, one.clone()),
        (5, 1, one),
    ])));
    assert_eq!(v.packets, 3);
    assert_eq!(v.messages, 1, "the copy and the early segment are not read");
    assert_eq!(v.duplicates, 1);
    assert_eq!(v.gaps, 1);
}

/// Only two-sided symbols, the first eight in dictionary order.
#[test]
fn the_front_page_is_the_first_eight_in_order() {
    let mut segments = Vec::new();
    let mut next = 1i64;
    for t in ["J", "I", "H", "G", "F", "E", "D", "C", "B", "A", "AA"] {
        let mut block = update(Side::Buy, t, 100, 10);
        let mut count = 1;
        if t != "C" {
            block.extend(update(Side::Sell, t, 101, 20));
            count = 2;
        }
        segments.push((next, count, block));
        next += i64::from(count);
    }
    let v = verify(&sample(capture(&segments)));
    let tickers: Vec<&str> = v.quotes.iter().map(|q| q.symbol.as_str()).collect();
    assert_eq!(tickers, vec!["A", "AA", "B", "D", "E", "F", "G", "H"]);
    let q = &v.quotes[0];
    assert_eq!(
        (q.bid.as_str(), q.bid_size, q.ask.as_str(), q.ask_size),
        ("1.00", 10, "1.01", 20)
    );
    assert_eq!((v.low.as_str(), v.high.as_str()), ("1.00", "1.01"));
}

#[test]
fn sequence_numbers_that_do_not_fit_are_noticed() {
    let one = update(Side::Buy, "AAPL", 150, 7);
    assert!(readable(&capture(&[(i64::MAX - 1, 1, one.clone())])));
    assert!(!readable(&capture(&[(i64::MAX, 1, one)])));
}

#[test]
fn sessions_are_found_by_date() {
    let days = [sample(vec![1]), sample(vec![2])];
    assert_eq!(find(&days, "2017-11-16").unwrap().bytes, vec![1]);
    assert!(find(&days, "2017-11-17").is_none());
}

#[test]
fn every_modelled_type_has_a_name() {
    let named = (0..=255u8).filter(|t| kind_name(*t) != "unknown").count();
    assert_eq!(named, 13);
    assert_eq!(kind_name(0x49), "Retail Liquidity (added ~2022)");
    assert_eq!(kind_name(0x54), "Trade Report");
}

/// What an earlier session quoted is not shown beside what a later one did.
#[test]
fn a_new_session_forgets_the_old_quotes() {
    let mut bytes = Vec::new();
    write_pcap_header(&mut bytes);
    let both = |ticker: &str| {
        let mut block = update(Side::Buy, ticker, 100, 1);
        block.extend(update(Side::Sell, ticker, 200, 1));
        block
    };
    for (session, ticker) in [(1u32, "OLD"), (2, "NEW")] {
        let seg = build_segment(session, 1, 2, &both(ticker));
        write_packet(&mut bytes, 1_500_000_000_000_000_000, &seg);
    }
    let s = sample(bytes);
    assert!(readable(&s.bytes));
    let v = verify(&s);
    assert_eq!((v.packets, v.messages, v.symbols), (2, 4, 2));
    let tickers: Vec<&str> = v.quotes.iter().map(|q| q.symbol.as_str()).collect();
    assert_eq!(tickers, vec!["NEW"]);
}
