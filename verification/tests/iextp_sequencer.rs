use latency_ladder::iextp::{Action, Sequencer};

const S: u32 = 1140588544;

#[test]
fn in_order_segments_deliver() {
    let mut q = Sequencer::default();
    assert_eq!(q.observe(S, 1, 3), Action::Deliver);
    assert_eq!(q.observe(S, 4, 2), Action::Deliver);
    assert_eq!(q.expected(), 6);
    assert_eq!(q.stats.delivered, 2);
}

/// The property the whole module exists for: replaying an identical stream
/// through the same sequencer — which is exactly what the B feed is —
/// delivers every segment exactly once.
#[test]
fn ab_arbitration_delivers_each_segment_once() {
    let segments = [(1i64, 3u16), (4, 2), (6, 1), (7, 4)];

    // Every way two feeds can be skewed against each other. All must give
    // the same answer, because arbitration depends only on sequence numbers
    // -- never on arrival order, and never on which feed a copy came from.
    let interleaved: Vec<_> = segments.iter().flat_map(|&s| [s, s]).collect();
    let a_fully_ahead: Vec<_> = segments.iter().chain(segments.iter()).copied().collect();
    let mut b_lags_one = vec![segments[0]];
    for (i, &s) in segments.iter().enumerate().skip(1) {
        b_lags_one.push(s);
        b_lags_one.push(segments[i - 1]);
    }
    b_lags_one.push(segments[segments.len() - 1]);

    for (name, order) in [
        ("interleaved", interleaved),
        ("A fully ahead of B", a_fully_ahead),
        ("B lagging one segment", b_lags_one),
    ] {
        let mut q = Sequencer::default();
        for (seq, n) in order {
            q.observe(S, seq, n);
        }
        assert_eq!(q.stats.delivered, 4, "{name}: each segment delivered once");
        assert_eq!(q.stats.duplicates, 4, "{name}: the losing copy is dropped");
        assert_eq!(q.expected(), 11, "{name}");
        assert_eq!(q.held_len(), 0, "{name}: nothing left stranded");
    }
}

/// UDP reorders. An out-of-order segment is held and released when the gap
/// closes — declaring loss on first sight would fire on a healthy feed.
#[test]
fn reordered_segments_are_held_then_released() {
    let mut q = Sequencer::default();
    assert_eq!(q.observe(S, 1, 2), Action::Deliver);
    assert!(matches!(
        q.observe(S, 5, 1),
        Action::Buffered {
            expected: 3,
            got: 5
        }
    ));
    assert_eq!(q.held_len(), 1);
    assert_eq!(q.observe(S, 3, 2), Action::Deliver);
    assert_eq!(q.held_len(), 0, "the held segment drained once contiguous");
    assert_eq!(q.expected(), 6);
    assert_eq!(q.stats.gaps_opened, 1);
}

#[test]
fn heartbeats_do_not_advance_the_sequence() {
    let mut q = Sequencer::default();
    q.observe(S, 1, 2);
    assert_eq!(q.observe(S, 99, 0), Action::Heartbeat);
    assert_eq!(q.expected(), 3, "a heartbeat must not move the stream");
}

#[test]
fn session_change_restarts_sequencing() {
    let mut q = Sequencer::default();
    q.observe(S, 100, 2);
    assert_eq!(q.observe(S + 1, 1, 1), Action::SessionReset);
    assert_eq!(q.expected(), 2);
    assert_eq!(q.stats.session_resets, 1);
}

/// An unfillable gap must be counted, not silently skipped.
#[test]
fn force_resync_reports_what_was_lost() {
    let mut q = Sequencer::default();
    q.observe(S, 1, 1);
    q.observe(S, 10, 1);
    assert_eq!(q.force_resync(), Some(10));
    assert_eq!(q.stats.messages_lost, 8, "sequences 2..=9 were never seen");
    assert_eq!(q.expected(), 11);
}

#[test]
fn reorder_buffer_is_bounded() {
    let mut q = Sequencer::new(4);
    q.observe(S, 1, 1);
    for seq in (10..100).step_by(2) {
        q.observe(S, seq, 1);
    }
    assert_eq!(q.held_len(), 4, "buffer must not grow without bound");
}
