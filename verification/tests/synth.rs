use latency_ladder::book::{Book, SortedLevels};
use latency_ladder::deep::messages::parse;
use latency_ladder::deep::{Message, Symbol};
use latency_ladder::iextp::{frame, Action, Capture as Cap, Segment, Sequencer};
use latency_ladder::synth::{generate, Config};

fn bodies<'a>(s: &Segment<'a>) -> Vec<&'a [u8]> {
    let mut messages = s.messages();
    let mut out = Vec::new();
    while let Some(m) = messages.next() {
        out.push(m);
    }
    out
}

/// Decode a generated capture with the production path.
fn decode(bytes: &[u8]) -> (u64, u64, Sequencer) {
    let mut seq = Sequencer::default();
    let mut packets = 0u64;
    let mut messages = 0u64;
    let mut reader = Cap::open(bytes).expect("generated a readable capture");
    while let Some(pkt) = reader.next() {
        packets += 1;
        let dg = frame::parse(pkt.data).expect("generated a parseable frame");
        let seg = Segment::parse(dg.payload).expect("generated a parseable segment");
        if matches!(
            seq.observe(seg.session, seg.first_sequence, seg.message_count),
            Action::Deliver | Action::SessionReset
        ) {
            messages += bodies(&seg).len() as u64;
        }
    }
    (packets, messages, seq)
}

/// Bytes we wrote, decoded by the same code that reads the exchange's bytes.
#[test]
fn a_clean_capture_decodes_to_exactly_what_was_published() {
    let cfg = Config {
        segments: 5_000,
        ..Default::default()
    };
    let cap = generate(&cfg);
    let (_, messages, seq) = decode(&cap.bytes);
    assert_eq!(messages, cap.messages_published);
    assert_eq!(seq.stats.duplicates, 0);
    assert_eq!(seq.stats.gaps_opened, 0);
}

/// Every field must survive the trip, not just the message count.
#[test]
fn message_contents_survive_the_round_trip() {
    let cfg = Config {
        segments: 500,
        symbols: vec![Symbol::from_ticker("AAPL")],
        ..Default::default()
    };
    let cap = generate(&cfg);
    let mut seen = 0;
    let mut complete_seen = false;
    let mut mid_event_seen = false;
    let mut reader = Cap::open(&cap.bytes).unwrap();
    while let Some(pkt) = reader.next() {
        let dg = frame::parse(pkt.data).unwrap();
        let seg = Segment::parse(dg.payload).unwrap();
        for body in bodies(&seg) {
            let msg = parse(body).expect("generated a decodable message");
            let Message::PriceLevel(u) = msg else {
                panic!("expected a price level update")
            };
            assert_eq!(u.symbol.as_str(), Some("AAPL"));
            assert!(u.price.raw() > 0, "prices must be positive");
            // Encoding one bit and decoding another would disagree here.
            if u.event_complete() {
                complete_seen = true;
            } else {
                mid_event_seen = true;
            }
            seen += 1;
        }
    }
    assert!(seen > 0);
    assert!(complete_seen, "some updates must complete their event");
    assert!(mid_event_seen, "some updates must be mid-event");
}

/// The B feed: every segment sent twice, every message delivered once.
#[test]
fn duplicated_segments_are_suppressed_exactly_once_each() {
    let cfg = Config {
        segments: 3_000,
        duplicate_rate: 10_000,
        ..Default::default()
    };
    let cap = generate(&cfg);
    let (packets, messages, seq) = decode(&cap.bytes);
    assert_eq!(
        packets,
        cap.segments_emitted * 2,
        "every emitted segment sent twice"
    );
    assert_eq!(messages, cap.messages_published, "each delivered once");
    assert_eq!(seq.stats.duplicates, cap.segments_emitted);
}

/// Dropped segments must register as gaps rather than vanishing.
#[test]
fn dropped_segments_are_detected_as_gaps() {
    let cfg = Config {
        segments: 5_000,
        gap_rate: 200,
        ..Default::default()
    };
    let cap = generate(&cfg);
    assert!(cap.gaps > 0, "the generator should have dropped some");
    let (_, _, seq) = decode(&cap.bytes);
    assert!(
        seq.stats.gaps_opened > 0,
        "the receiver must notice, not silently skip"
    );
}

/// The generator must be able to produce a market that does not cross.
///
/// A random-walking mid with persistent levels would leave stale bids above
/// fresh asks, which no venue could publish.
#[test]
fn a_clean_capture_never_crosses_the_book() {
    let cap = generate(&Config {
        segments: 20_000,
        ..Default::default()
    });
    let mut seq = Sequencer::default();
    let mut b: Book<SortedLevels> = Book::with_capacity(64);
    let mut reader = Cap::open(&cap.bytes).unwrap();
    while let Some(pkt) = reader.next() {
        let dg = frame::parse(pkt.data).unwrap();
        let seg = Segment::parse(dg.payload).unwrap();
        if !matches!(
            seq.observe(seg.session, seg.first_sequence, seg.message_count),
            Action::Deliver | Action::SessionReset
        ) {
            continue;
        }
        for body in bodies(&seg) {
            if let Ok(Message::PriceLevel(u)) = parse(body) {
                b.apply_price_level(&u);
            }
        }
    }
    assert!(b.stats.updates > 10_000, "should have exercised the book");
    assert_eq!(
        b.stats.crossed_when_stable, 0,
        "a generated market must not cross at an event boundary"
    );
}

#[test]
fn the_same_seed_gives_the_same_bytes() {
    let a = generate(&Config {
        segments: 500,
        ..Default::default()
    });
    let b = generate(&Config {
        segments: 500,
        ..Default::default()
    });
    assert_eq!(a.bytes, b.bytes, "a demo must be reproducible");
}
