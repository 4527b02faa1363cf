//! Each law of the library, once, on concrete values.

use latency_ladder::book::{ArenaBook, BTreeLevels, Book, InlineLevels, Levels, SortedLevels};
use latency_ladder::deep::messages::parse as parse_message;
use latency_ladder::deep::{Message, Price, PriceLevelUpdate, Side, Symbol};
use latency_ladder::iextp::frame::parse as parse_frame;
use latency_ladder::iextp::{Action, Capture, Segment, Sequencer};
use latency_ladder::pipeline::{Histogram, Pipeline, Stage, TokenGen};
use latency_ladder::synth::wire::{
    build_frame, build_segment, count_messages, write_packet, write_pcap_header, write_price_level,
};
use latency_ladder::synth::{generate, Config};

fn update(side: Side, ticker: &str, units: i64, size: u32, flags: u8) -> PriceLevelUpdate {
    PriceLevelUpdate {
        side,
        flags,
        timestamp: 1_500_000_000_000_000_000,
        symbol: Symbol::from_ticker(ticker),
        size,
        price: Price::from_raw(units),
    }
}

fn bodies<'a>(s: &Segment<'a>) -> Vec<&'a [u8]> {
    let mut messages = s.messages();
    let mut out = Vec::new();
    while let Some(m) = messages.next() {
        out.push(m);
    }
    out
}

/// A frame carrying one update as message `first` of session 1.
fn frame_of(first: i64, u: &PriceLevelUpdate) -> Vec<u8> {
    let mut block = Vec::new();
    write_price_level(&mut block, u);
    build_frame(&build_segment(1, first, 1, &block))
}

/// Twenty frames that quote, resize and delete.
fn stream() -> Vec<Vec<u8>> {
    (0..20i64)
        .map(|i| {
            let side = if i % 3 == 0 { Side::Sell } else { Side::Buy };
            let price = if i % 3 == 0 { 1_010_000 } else { 1_000_000 } + (i % 4) * 100;
            let size = if i % 5 == 4 { 0 } else { 100 + i as u32 };
            frame_of(1 + i, &update(side, "AAPL", price, size, 1))
        })
        .collect()
}

fn told(frames: &[Vec<u8>]) -> Pipeline<SortedLevels> {
    let mut p = Pipeline::with_capacity(16);
    for f in frames {
        assert!(p.can_accept(f));
        p.on_frame_fast(f);
    }
    p
}

fn same_market(a: &Pipeline<SortedLevels>, b: &Pipeline<SortedLevels>) {
    let s = Symbol::from_ticker("AAPL");
    let (x, y) = (a.book.get(s).unwrap(), b.book.get(s).unwrap());
    assert_eq!(x.bids.ascending(), y.bids.ascending());
    assert_eq!(x.asks.ascending(), y.asks.ascending());
    assert_eq!(a.last_order(), b.last_order());
    assert_eq!(a.counters.messages, b.counters.messages);
    assert_eq!(a.counters.orders_encoded, b.counters.orders_encoded);
    assert_eq!(b.counters.messages_lost, 0);
    assert_eq!(b.seq.held_len(), 0);
}

#[test]
fn any_order_builds_the_same_book() {
    let frames = stream();
    let plain = told(&frames);
    assert_eq!(plain.counters.messages, 20);

    // The first frame, then everything else backwards.
    let mut backwards = vec![frames[0].clone()];
    backwards.extend(frames[1..].iter().rev().cloned());
    same_market(&plain, &told(&backwards));

    // Neighbours swapped, and every frame twice.
    let mut doubled = vec![frames[0].clone()];
    for pair in frames[1..].chunks(2) {
        for f in pair.iter().rev() {
            doubled.push(f.clone());
            doubled.push(f.clone());
        }
    }
    same_market(&plain, &told(&doubled));
}

#[test]
fn a_frame_is_applied_once() {
    let frames = stream();
    let mut p = told(&frames);
    let before = (p.counters.messages, *p.last_order());
    p.on_frame_fast(&frames[19]);
    assert_eq!(before, (p.counters.messages, *p.last_order()));
    assert_eq!(p.seq.stats.duplicates, 1);
    assert_eq!(p.counters.packets, 21);
}

#[test]
fn the_first_copy_of_two_feeds_wins() {
    // Feed A is two segments ahead of feed B.
    let mut q = Sequencer::new(4);
    for (first, want) in [
        (1, Action::Deliver),
        (2, Action::Deliver),
        (1, Action::Duplicate),
        (3, Action::Deliver),
        (2, Action::Duplicate),
        (3, Action::Duplicate),
    ] {
        assert_eq!(q.observe(7, first, 1), want);
    }
    assert_eq!((q.stats.delivered, q.stats.duplicates), (3, 3));
    assert_eq!(q.held_len(), 0);
}

#[test]
fn any_order_delivers_every_segment_once() {
    let mut q = Sequencer::new(8);
    for first in [1, 5, 3, 5, 9, 7, 3, 1] {
        q.observe(7, first, 2);
    }
    assert_eq!(q.expected(), 11);
    assert_eq!(q.stats.delivered, 5);
    assert_eq!(q.stats.messages_lost, 0);
    assert_eq!(q.held_len(), 0);
}

#[test]
fn a_new_session_starts_over() {
    let mut q = Sequencer::default();
    q.observe(1, 100, 5);
    q.observe(1, 200, 5);
    assert_eq!(q.held_len(), 1);
    assert_eq!(q.observe(2, 3, 4), Action::SessionReset);
    assert_eq!((q.expected(), q.held_len()), (7, 0));
    assert_eq!(q.observe(2, 999, 0), Action::Heartbeat);
    assert_eq!(q.expected(), 7);
}

#[test]
fn what_is_written_reads_back() {
    let u = update(Side::Sell, "ZVZZT", 1_234_567, 89, 1);
    let v = update(Side::Buy, "A", 1, 0, 0);
    let mut block = Vec::new();
    write_price_level(&mut block, &u);
    write_price_level(&mut block, &v);
    assert_eq!(count_messages(&block), 2);
    let seg = build_segment(9, 77, 2, &block);
    let frame = build_frame(&seg);
    let mut file = Vec::new();
    write_pcap_header(&mut file);
    write_packet(&mut file, 1_500_000_000_123_456_789, &seg);

    let mut reader = Capture::open(&file).unwrap();
    let pkt = reader.next().unwrap();
    assert_eq!(pkt.data, frame.as_slice());
    assert_eq!(pkt.ts_nanos, 1_500_000_000_123_456_000, "to the microsecond");
    assert!(reader.next().is_none());
    let dg = parse_frame(pkt.data).unwrap();
    assert_eq!(dg.payload, seg.as_slice());
    let s = Segment::parse(dg.payload).unwrap();
    assert_eq!((s.session, s.first_sequence, s.message_count), (9, 77, 2));
    let got: Vec<PriceLevelUpdate> = bodies(&s)
        .into_iter()
        .map(|b| match parse_message(b) {
            Ok(Message::PriceLevel(u)) => u,
            _ => panic!("expected a price level update"),
        })
        .collect();
    assert_eq!(got, vec![u, v]);
}

#[test]
fn a_tag_and_padding_change_nothing() {
    let plain = frame_of(1, &update(Side::Buy, "AAPL", 10_000, 5, 1));
    let mut padded = plain.clone();
    padded.extend_from_slice(&[0xaa; 9]);
    let untagged = parse_frame(&plain).unwrap().payload.to_vec();
    assert_eq!(parse_frame(&padded).unwrap().payload, untagged.as_slice());
    // A second tag in front of the first.
    let mut tagged = plain[..12].to_vec();
    tagged.extend_from_slice(&[0x81, 0x00, 0x03, 0xf5]);
    tagged.extend_from_slice(&plain[12..]);
    assert_eq!(parse_frame(&tagged).unwrap().payload, untagged.as_slice());
}

#[test]
fn containers_agree_level_by_level() {
    let mut a = BTreeLevels::default();
    let mut b = SortedLevels::default();
    let mut c = InlineLevels::default();
    let mut book = ArenaBook::with_capacity(4);
    for i in 0..60i64 {
        let price = Price::from_raw(100 * (i * 7 % 13));
        let size = (i * 5 % 4) as u32;
        a.set(price, size);
        b.set(price, size);
        c.set(price, size);
        book.apply_price_level(&update(Side::Buy, "X", price.raw(), size, 1));
        assert_eq!(a.levels(), b.levels());
        assert_eq!(a.levels(), c.levels());
        assert_eq!(book.best_bid(Symbol::from_ticker("X")), a.max());
        assert_eq!(book.total_levels(), a.len());
        assert_eq!(book.total_size(), a.total_size());
    }
}

#[test]
fn crossing_is_gated_and_symbols_keep_apart() {
    let mut b: Book<SortedLevels> = Book::new();
    b.apply_price_level(&update(Side::Buy, "X", 200, 1, 1));
    b.apply_price_level(&update(Side::Buy, "Y", 500, 1, 1));
    let t = b.apply_price_level(&update(Side::Sell, "X", 100, 1, 0));
    assert!(!t.stable);
    assert_eq!((b.stats.crossed_mid_event, b.stats.crossed_when_stable), (1, 0));
    b.apply_price_level(&update(Side::Sell, "X", 100, 2, 1));
    assert_eq!((b.stats.crossed_mid_event, b.stats.crossed_when_stable), (1, 1));
    let y = b.get(Symbol::from_ticker("Y")).unwrap();
    assert_eq!((y.best_bid(), y.best_ask()), (Some((Price::from_raw(500), 1)), None));
}

#[test]
fn each_prefix_does_no_more_than_the_next() {
    let frames = stream();
    let mut last = (0, 0, 0);
    for stage in Stage::all() {
        let mut p: Pipeline<SortedLevels> = Pipeline::with_capacity(16);
        for f in &frames {
            p.on_frame(f, stage);
        }
        let now = (p.counters.messages, p.counters.book_updates, p.counters.orders_encoded);
        assert!(last.0 <= now.0 && last.1 <= now.1 && last.2 <= now.2, "{stage:?}");
        last = now;
    }
    let p = told(&frames);
    assert_eq!(
        last,
        (p.counters.messages, p.counters.book_updates, p.counters.orders_encoded)
    );
}

#[test]
fn buckets_are_ordered_and_precise() {
    let mut last = 0;
    for v in (0..40).flat_map(|k| [1u64 << k, (1u64 << k) + 1, (3u64 << k) / 2]) {
        if let Some(i) = Histogram::index(v) {
            let low = Histogram::bucket_low(i);
            assert!(low <= v && (v - low) * 1_000 <= v);
        }
    }
    for v in 0..10_000u64 {
        let i = Histogram::index(v).unwrap();
        assert!(i >= last);
        last = i;
    }
}

#[test]
fn quantiles_run_from_the_first_value_to_the_last() {
    let mut h = Histogram::new();
    for v in [30u64, 10, 20, 40] {
        h.record(v);
    }
    assert_eq!(h.quantile(0), 10);
    assert_eq!(h.quantile(2_500), 10);
    assert_eq!(h.quantile(2_501), 20);
    assert_eq!(h.quantile(5_000), 20);
    assert_eq!(h.quantile(9_900), 40);
    assert_eq!(h.quantile(10_000), 40);
    assert_eq!(h.quantile(99_999), 40);
    h.clear();
    assert_eq!((h.count(), h.quantile(5_000)), (0, 0));
}

#[test]
fn tokens_count_up_in_fixed_width() {
    let mut g = TokenGen::default();
    let a = g.next_token();
    let b = g.next_token();
    assert_ne!(a, b);
    assert_eq!(&a[..2], b"LL");
    assert_eq!(g.issued(), 2);
}

#[test]
fn a_zero_gap_rate_drops_nothing_and_a_full_one_doubles_everything() {
    let clean = generate(&Config {
        segments: 400,
        ..Default::default()
    });
    assert_eq!((clean.gaps, clean.duplicates), (0, 0));
    let doubled = generate(&Config {
        segments: 400,
        duplicate_rate: 10_000,
        ..Default::default()
    });
    assert_eq!(doubled.duplicates, doubled.segments_emitted);
    let lost = generate(&Config {
        segments: 400,
        gap_rate: 10_000,
        ..Default::default()
    });
    assert_eq!(lost.segments_emitted, 0);
    assert_eq!(lost.bytes.len(), 24, "nothing but the header");
    assert!(lost.messages_published > 0, "numbers are used up all the same");
}

#[test]
fn nothing_to_generate_is_an_empty_capture() {
    let none = generate(&Config {
        segments: 0,
        symbols: vec![],
        ..Default::default()
    });
    assert_eq!(none.bytes.len(), 24);
    assert_eq!(none.messages_published, 0);
}

/// One frame never comes: the path waits for a while, then goes on without it.
#[test]
fn a_loss_is_waited_for_then_counted() {
    let mut p: Pipeline<SortedLevels> = Pipeline::with_capacity(16);
    p.on_frame_fast(&frame_of(1, &update(Side::Buy, "AAPL", 1_000_000, 1, 1)));
    for first in 3..66i64 {
        p.on_frame_fast(&frame_of(first, &update(Side::Buy, "MSFT", 100 * first, 1, 1)));
    }
    assert_eq!(p.seq.held_len(), 63);
    assert_eq!((p.counters.messages, p.counters.messages_lost), (1, 0));
    assert!(p.book.get(Symbol::from_ticker("AAPL")).is_some());

    p.on_frame_fast(&frame_of(66, &update(Side::Buy, "MSFT", 6_600, 1, 1)));
    assert_eq!(p.seq.held_len(), 0);
    assert_eq!((p.counters.resyncs, p.counters.book_resets), (1, 1));
    assert_eq!(p.counters.messages_lost, 1);
    assert_eq!(p.seq.stats.messages_lost, 1);
    assert_eq!(p.counters.messages, 65, "everything held was replayed");
    assert!(p.book.get(Symbol::from_ticker("AAPL")).is_none(), "the old book is gone");
    assert_eq!(p.book.get(Symbol::from_ticker("MSFT")).unwrap().bids.len(), 64);
}

#[test]
fn a_gap_given_up_on_is_counted() {
    let mut q = Sequencer::default();
    q.observe(1, 1, 2);
    q.observe(1, 10, 5);
    q.observe(1, 20, 1);
    assert_eq!(q.force_resync(), Some(10));
    assert_eq!((q.stats.messages_lost, q.expected(), q.held_len()), (7, 15, 1));
    assert_eq!(q.force_resync(), Some(20));
    assert_eq!((q.stats.messages_lost, q.expected()), (12, 21));
    assert_eq!(q.force_resync(), None);
}

#[test]
fn a_late_frame_is_replayed() {
    let frames = stream();
    let (a, b, c) = (frames[0].clone(), frames[1].clone(), frames[2].clone());
    let turn = told(&[a.clone(), b.clone(), c.clone()]);
    let late = told(&[a.clone(), c.clone()]);
    assert_eq!((late.counters.messages, late.seq.held_len()), (1, 1));
    let late = told(&[a, c, b]);
    same_market(&turn, &late);
    assert_eq!(turn.counters, late.counters);
    assert_eq!((late.counters.messages, late.counters.resyncs), (3, 0));
    assert_eq!(turn.seq.expected(), late.seq.expected());
    assert_eq!(late.seq.expected(), 4);
    assert_eq!(late.current_sequencer().held_len(), 0);
    assert_eq!(late.book.stats, turn.book.stats);
}

/// A frame of another session, numbered from wherever it likes.
fn frame_in(session: u32, first: i64, u: &PriceLevelUpdate) -> Vec<u8> {
    let mut block = Vec::new();
    write_price_level(&mut block, u);
    build_frame(&build_segment(session, first, 1, &block))
}

#[test]
fn a_new_session_starts_with_an_empty_book() {
    let old = update(Side::Buy, "AAPL", 1_000_000, 5, 1);
    let early = update(Side::Sell, "GOOG", 2_000_000, 5, 1);
    let new = update(Side::Sell, "MSFT", 3_000_000, 7, 1);
    let mut p: Pipeline<SortedLevels> = Pipeline::with_capacity(16);
    p.on_frame_fast(&frame_in(1, 1, &old));
    p.on_frame_fast(&frame_in(1, 9, &early));
    assert_eq!((p.book.len(), p.seq.held_len()), (1, 1));

    // The new session's numbers run past what was put by: none of it is replayed.
    p.on_frame_fast(&frame_in(2, 100, &new));
    assert_eq!(p.seq.stats.session_resets, 1);
    assert_eq!((p.book.len(), p.book.total_levels()), (1, 1));
    assert!(p.book.get(Symbol::from_ticker("AAPL")).is_none());
    assert!(p.book.get(Symbol::from_ticker("GOOG")).is_none());
    assert_eq!(
        p.book.get(Symbol::from_ticker("MSFT")).unwrap().best_ask(),
        Some((Price::from_raw(3_000_000), 7))
    );
    assert_eq!((p.seq.expected(), p.seq.held_len()), (101, 0));
    assert_eq!((p.counters.messages, p.counters.book_resets), (2, 0));
    assert_eq!(p.book.stats.updates, 2, "counters outlive the session");

    let mut q: Pipeline<SortedLevels> = Pipeline::with_capacity(16);
    q.on_frame(&frame_in(1, 1, &old), Stage::Encode);
    q.on_frame(&frame_in(2, 100, &new), Stage::Encode);
    assert_eq!((q.book.len(), q.book.total_levels()), (1, 1));
    assert!(q.book.get(Symbol::from_ticker("AAPL")).is_none());
}

#[test]
fn levels_follow_updates() {
    let mut book: Book<SortedLevels> = Book::new();
    let mut arena = ArenaBook::with_capacity(4);
    let steps = [
        (Side::Buy, "X", 100, 5, 1),
        (Side::Buy, "X", 200, 5, 2),
        (Side::Sell, "X", 100, 5, 3),
        (Side::Buy, "Y", 100, 5, 4),
        (Side::Buy, "X", 100, 9, 4), // a resize
        (Side::Buy, "X", 300, 0, 4), // a delete of an absent level
        (Side::Sell, "Z", 100, 0, 4),
        (Side::Buy, "X", 100, 0, 3),
        (Side::Sell, "X", 100, 0, 2),
    ];
    for (side, ticker, price, size, want) in steps {
        let u = update(side, ticker, price, size, 1);
        book.apply_price_level(&u);
        arena.apply_price_level(&u);
        assert_eq!(book.total_levels(), want);
        assert_eq!(arena.total_levels(), want);
        let summed: usize = book.iter().iter().map(|(_, s)| s.bids.len() + s.asks.len()).sum();
        assert_eq!(summed, want);
    }
}

/// Past eight levels a side, and at the side's limit, the arena still agrees.
#[test]
fn the_arena_agrees_over_a_run_of_updates() {
    let mut arena = ArenaBook::with_capacity(2);
    let mut book: Book<BTreeLevels> = Book::new();
    for i in 0..600i64 {
        let side = if i % 2 == 0 { Side::Buy } else { Side::Sell };
        let ticker = ["A", "B", "C"][(i % 3) as usize];
        let size = (i * 11 % 5) as u32;
        let u = update(side, ticker, 100 * (i * 37 % 41), size, (i % 2) as u8);
        arena.apply_price_level(&u);
        book.apply_price_level(&u);
        for t in ["A", "B", "C"] {
            let s = Symbol::from_ticker(t);
            if let Some(want) = book.get(s) {
                assert_eq!(arena.best_bid(s), want.best_bid());
                assert_eq!(arena.best_ask(s), want.best_ask());
            }
        }
        assert_eq!(arena.total_levels(), book.total_levels());
        assert_eq!(arena.total_size(), book.total_size());
        assert_eq!(arena.len(), book.len());
        assert_eq!(arena.counters(), book.counters());
    }
}

/// One side takes one level less than a 16-bit count can say, and those can still
/// be resized and deleted.
#[test]
fn a_full_side_still_takes_resizes_and_deletes() {
    let mut arena = ArenaBook::with_capacity(1);
    let s = Symbol::from_ticker("X");
    for i in 0..65_535i64 {
        arena.apply_price_level(&update(Side::Buy, "X", i, 1, 1));
    }
    assert_eq!(arena.total_levels(), 65_535);
    arena.apply_price_level(&update(Side::Buy, "X", 65_534, 8, 1));
    assert_eq!(arena.best_bid(s), Some((Price::from_raw(65_534), 8)));
    arena.apply_price_level(&update(Side::Buy, "X", 65_534, 0, 1));
    assert_eq!(arena.best_bid(s), Some((Price::from_raw(65_533), 1)));
    assert_eq!(arena.total_levels(), 65_534);
}

#[test]
fn merging_is_recording_in_any_order() {
    let xs = [5u64, 1_000_000, 77, 0];
    let ys = [u64::MAX, 3, 77, 40_000];
    let mut a = Histogram::new();
    let mut b = Histogram::new();
    let mut c = Histogram::new();
    for i in 0..4 {
        a.record(xs[i]);
        b.record(ys[i]);
        c.record(ys[3 - i]);
        c.record(xs[i]);
    }
    a.merge(&b);
    assert_eq!((a.count(), a.overflows()), (c.count(), c.overflows()));
    assert_eq!((a.min(), a.max(), a.sum()), (c.min(), c.max(), c.sum()));
    for q in [0, 1, 2_500, 5_000, 9_000, 10_000] {
        assert_eq!(a.quantile(q), c.quantile(q));
    }
    assert_eq!(b.count(), 4);
}

/// A repeated symbol may cross the book; everything published still comes through.
#[test]
fn a_clean_capture_is_heard_whole_with_a_repeated_symbol() {
    let name = Symbol::from_ticker("AAPL");
    let cap = generate(&Config {
        segments: 500,
        symbols: vec![name, name, Symbol::from_ticker("MSFT")],
        duplicate_rate: 3_000,
        ..Default::default()
    });
    assert_eq!(cap.gaps, 0);
    assert!(cap.duplicates > 0);
    let mut seq = Sequencer::default();
    let (mut packets, mut messages) = (0u64, 0u64);
    let mut reader = Capture::open(&cap.bytes).unwrap();
    while let Some(pkt) = reader.next() {
        packets += 1;
        let s = Segment::parse(parse_frame(pkt.data).unwrap().payload).unwrap();
        if seq.observe(s.session, s.first_sequence, s.message_count) == Action::Deliver {
            messages += bodies(&s).len() as u64;
        }
    }
    assert_eq!(packets, cap.segments_emitted + cap.duplicates);
    assert_eq!(messages, cap.messages_published);
    assert_eq!(seq.stats.delivered, cap.segments_emitted);
    assert_eq!(seq.stats.duplicates, cap.duplicates);
    assert_eq!((seq.stats.gaps_opened, seq.stats.messages_lost), (0, 0));
}

#[test]
fn a_price_is_written_exactly() {
    for (units, want) in [
        (999_900, "99.99"),
        (999_950, "99.995"),
        (999_951, "99.9951"),
        (10, "0.001"),
        (1, "0.0001"),
        (100, "0.01"),
        (-25_010, "-2.501"),
        (i64::MIN, "-922337203685477.5808"),
        (i64::MAX, "922337203685477.5807"),
    ] {
        assert_eq!(Price::from_raw(units).to_string(), want);
    }
}

#[test]
fn a_second_lookup_changes_nothing() {
    let frames = stream();
    let mut once: Pipeline<SortedLevels> = Pipeline::with_capacity(16);
    let mut again: Pipeline<SortedLevels> = Pipeline::default();
    assert!(!once.redundant_lookup && !again.looks_up_again());
    again.redundant_lookup = true;
    for f in &frames {
        once.on_frame(f, Stage::Encode);
        again.on_frame(f, Stage::Encode);
    }
    same_market(&once, &again);
    assert_eq!(once.counters, again.counters);
    assert!(!once.redundant_lookup && again.redundant_lookup && again.looks_up_again());
    again.on_frame_fast(&frames[19]);
    assert!(again.redundant_lookup);
}

#[test]
fn a_sorted_side_is_listed_from_either_end() {
    let mut side = SortedLevels::default();
    assert!(side.descending().is_empty());
    for (price, size) in [(300, 3), (100, 1), (200, 2)] {
        side.set(Price::from_raw(price), size);
    }
    let mut down = side.descending();
    assert_eq!(
        down,
        vec![(Price::from_raw(300), 3), (Price::from_raw(200), 2), (Price::from_raw(100), 1)]
    );
    assert_eq!(down.first().copied(), side.max());
    down.reverse();
    assert_eq!(down, side.ascending());
}
