use latency_ladder::book::SortedLevels;
use latency_ladder::deep::{Price, Symbol};
use latency_ladder::pipeline::{Histogram, Pipeline, Replay, Stage};

fn quantile(h: &Histogram, q: f64) -> u64 {
    h.quantile((q * 10_000.0).round() as u64)
}

/// Build a frame carrying one IEX-TP segment with the given DEEP messages.
fn frame_with(session: u32, first_seq: i64, msgs: &[&[u8]]) -> Vec<u8> {
    let mut body = Vec::new();
    for m in msgs {
        body.extend_from_slice(&(m.len() as u16).to_le_bytes());
        body.extend_from_slice(m);
    }
    let mut seg = Vec::new();
    seg.push(1u8);
    seg.push(0);
    seg.extend_from_slice(&0x8004u16.to_le_bytes());
    seg.extend_from_slice(&1u32.to_le_bytes());
    seg.extend_from_slice(&session.to_le_bytes());
    seg.extend_from_slice(&(body.len() as u16).to_le_bytes());
    seg.extend_from_slice(&(msgs.len() as u16).to_le_bytes());
    seg.extend_from_slice(&0i64.to_le_bytes());
    seg.extend_from_slice(&first_seq.to_le_bytes());
    seg.extend_from_slice(&0i64.to_le_bytes());
    seg.extend_from_slice(&body);

    let mut f = vec![0u8; 12];
    f.extend_from_slice(&0x8100u16.to_be_bytes()); // VLAN, as real IEX frames carry
    f.extend_from_slice(&[0x03, 0xf5]);
    f.extend_from_slice(&0x0800u16.to_be_bytes());
    let ip = f.len();
    f.extend_from_slice(&[0x45, 0, 0, 0, 0, 0, 0, 0, 64, 17, 0, 0]);
    f.extend_from_slice(&[10, 0, 0, 1]);
    f.extend_from_slice(&[233, 215, 21, 4]);
    f.extend_from_slice(&[0x28, 0x8a]);
    f.extend_from_slice(&10378u16.to_be_bytes());
    f.extend_from_slice(&((8 + seg.len()) as u16).to_be_bytes());
    f.extend_from_slice(&[0, 0]);
    f.extend_from_slice(&seg);
    let total = (f.len() - ip) as u16;
    f[ip + 2..ip + 4].copy_from_slice(&total.to_be_bytes());
    f
}

fn plu(kind: u8, sym: &str, size: u32, price: Price) -> Vec<u8> {
    let mut v = vec![kind, 0x01];
    v.extend_from_slice(&1_500_000_000_000_000_000i64.to_le_bytes());
    v.extend_from_slice(&Symbol::from_ticker(sym).0);
    v.extend_from_slice(&size.to_le_bytes());
    v.extend_from_slice(&price.raw().to_le_bytes());
    v
}

/// Wire bytes in, order bytes out, through every stage.
#[test]
fn a_wide_spread_drives_an_order_onto_the_wire() {
    let mut p: Pipeline<SortedLevels> = Pipeline::with_capacity(16);
    let bid = plu(0x38, "AAPL", 500, Price::from_parts(100, 0));
    let ask = plu(0x35, "AAPL", 500, Price::from_parts(100, 500));
    let f = frame_with(1, 1, &[&bid, &ask]);
    p.on_frame(&f, Stage::Encode);

    assert_eq!(p.counters.messages, 2);
    assert_eq!(p.counters.book_updates, 2);
    assert_eq!(p.counters.orders_encoded, 1, "the wide spread should quote");
    assert_eq!(p.counters.encode_errors, 0);

    let o = p.last_order();
    assert_eq!(o[0], b'O');
    assert_eq!(o[15], b'B');
    assert_eq!(&o[20..28], b"AAPL    ");
    assert_eq!(
        u32::from_be_bytes(o[28..32].try_into().unwrap()),
        1_000_000,
        "order price must be the joined bid"
    );
}

#[test]
fn a_tight_spread_reaches_the_book_but_emits_nothing() {
    let mut p: Pipeline<SortedLevels> = Pipeline::with_capacity(16);
    let bid = plu(0x38, "AAPL", 500, Price::from_parts(100, 0));
    let ask = plu(0x35, "AAPL", 500, Price::from_parts(100, 100));
    p.on_frame(&frame_with(1, 1, &[&bid, &ask]), Stage::Encode);
    assert_eq!(p.counters.book_updates, 2);
    assert_eq!(p.counters.orders_encoded, 0);
}

/// Each prefix must do strictly less than the next. If a shallow stage
/// already updated the book, the stage costs derived by difference are
/// meaningless.
#[test]
fn each_prefix_stops_where_it_says_it_does() {
    let bid = plu(0x38, "AAPL", 500, Price::from_parts(100, 0));
    let ask = plu(0x35, "AAPL", 500, Price::from_parts(100, 500));
    let f = frame_with(1, 1, &[&bid, &ask]);

    for (stage, messages, updates, orders) in [
        (Stage::Receive, 0, 0, 0),
        (Stage::Sequence, 0, 0, 0),
        (Stage::Parse, 2, 0, 0),
        (Stage::BookUpdate, 2, 2, 0),
        (Stage::Decide, 2, 2, 0),
        (Stage::Encode, 2, 2, 1),
    ] {
        let mut p: Pipeline<SortedLevels> = Pipeline::with_capacity(16);
        p.on_frame(&f, stage);
        assert_eq!(p.counters.messages, messages, "{stage:?} messages");
        assert_eq!(p.counters.book_updates, updates, "{stage:?} book updates");
        assert_eq!(p.counters.orders_encoded, orders, "{stage:?} orders");
    }
}

/// A duplicate segment — the losing side of an A/B pair — must be dropped by
/// the sequencer and never reach the book twice.
#[test]
fn a_duplicate_segment_does_not_double_apply() {
    let mut p: Pipeline<SortedLevels> = Pipeline::with_capacity(16);
    let bid = plu(0x38, "AAPL", 500, Price::from_parts(100, 0));
    let f = frame_with(1, 1, &[&bid]);
    p.on_frame(&f, Stage::Encode);
    p.on_frame(&f, Stage::Encode);
    assert_eq!(p.counters.packets, 2);
    assert_eq!(
        p.counters.book_updates, 1,
        "the B-feed copy must be dropped"
    );
}

/// Coordinated omission: a stall must be charged to everything behind it.
#[test]
fn corrected_latency_charges_the_backlog_but_service_time_hides_it() {
    let mut r = Replay::new(1_000_000); // one message per microsecond
    // Ten messages scheduled 1us apart. Message 0 stalls for 10us; the rest
    // each take 100ns of service but start late because of the stall.
    r.record(0, 0, 10_000);
    for i in 1..10u64 {
        let scheduled = i * 1_000;
        let started = 10_000 + (i - 1) * 100;
        r.record(scheduled, started, started + 100);
    }
    assert!(
        quantile(&r.service, 0.99) < 11_000,
        "service time sees only the one slow item"
    );
    assert!(
        quantile(&r.corrected, 0.99) >= 9_000,
        "corrected latency charges the queued messages for the stall"
    );
    assert!(r.behind > 0, "the backlog must be visible");
}
