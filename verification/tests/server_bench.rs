use latency_ladder::book::{BTreeLevels, SortedLevels};
use latency_ladder::pipeline::{Pipeline, Stage};
use latency_ladder::server::bench::{
    best_and_worst, build_corpus, feed, feed_upto, reported, scheduled, snapshot, stage_budget,
    BudgetStep, Container, Queue, Request, RunStep,
};
use latency_ladder::synth::{generate, Config};

fn request(duplicate_rate: u64, gap_rate: u64) -> Request {
    Request {
        container: Container::Sorted,
        duplicate_rate,
        gap_rate,
        load: 5_000,
    }
}

#[test]
fn containers_go_by_name() {
    assert_eq!(Container::parse("btree"), Container::BTree);
    assert_eq!(Container::parse("sorted"), Container::Sorted);
    assert_eq!(Container::parse("anything"), Container::Sorted);
    assert_eq!(Container::BTree.name(), "BTreeMap (R0)");
    assert_eq!(Container::Sorted.name(), "sorted SoA (R1)");
}

#[test]
fn requests_are_bounded() {
    let wild = Request {
        container: Container::BTree,
        duplicate_rate: 50_000,
        gap_rate: 9_000,
        load: 90_000,
    }
    .clamped();
    assert_eq!(
        (wild.duplicate_rate, wild.gap_rate, wild.load),
        (10_000, 2_500, 20_000)
    );
    assert_eq!(wild.container, Container::BTree);
    let tame = Request {
        container: Container::Sorted,
        duplicate_rate: 7,
        gap_rate: 8,
        load: 0,
    }
    .clamped();
    assert_eq!((tame.duplicate_rate, tame.gap_rate, tame.load), (7, 8, 1_000));
}

#[test]
fn a_corpus_holds_every_frame_that_was_sent() {
    let clean = build_corpus(request(0, 0), 300);
    let cap = generate(&Config {
        segments: 300,
        ..Default::default()
    });
    assert_eq!(clean.frames.len() as u64, cap.segments_emitted);
    assert_eq!(clean.gaps_injected, 0);

    let doubled = build_corpus(request(10_000, 0), 300);
    assert_eq!(doubled.frames.len() % 2, 0);
    assert!(doubled
        .frames
        .chunks(2)
        .all(|pair| pair[0] == pair[1]));

    let lossy = build_corpus(request(0, 2_500), 300);
    assert!(lossy.gaps_injected > 0);
    assert!((lossy.frames.len() as u64) < cap.segments_emitted);
}

#[test]
fn both_containers_tell_the_same_story() {
    let corpus = build_corpus(request(3_000, 100), 2_000);
    let mut fast: Pipeline<SortedLevels> = Pipeline::with_capacity(1024);
    let mut plain: Pipeline<BTreeLevels> = Pipeline::with_capacity(1024);
    assert_eq!(feed(&mut fast, &corpus.frames), corpus.frames.len());
    assert_eq!(feed(&mut plain, &corpus.frames), corpus.frames.len());
    assert_eq!(fast.counters, plain.counters);
    assert_eq!(fast.last_order(), plain.last_order());
    assert!(fast.seq.stats.duplicates > 0);
    assert!(fast.seq.stats.gaps_opened > 0);
    let a = snapshot(&fast);
    let b = snapshot(&plain);
    assert_eq!(a.len(), 6, "all six symbols trade in a usual capture");
    assert_eq!(a[0].symbol, "AAPL");
    assert_eq!(a[5].symbol, "TSLA");
    for (x, y) in a.iter().zip(&b) {
        assert_eq!(x.bid, y.bid);
        assert_eq!(x.ask, y.ask);
        assert_eq!((x.bid_levels, x.ask_levels), (y.bid_levels, y.ask_levels));
    }
}

/// On a clean capture the production path and the full prefix do the same.
#[test]
fn the_full_prefix_is_the_production_path_on_a_clean_capture() {
    let corpus = build_corpus(request(0, 0), 1_000);
    let mut fast: Pipeline<SortedLevels> = Pipeline::with_capacity(64);
    let mut staged: Pipeline<SortedLevels> = Pipeline::with_capacity(64);
    assert_eq!(feed(&mut fast, &corpus.frames), corpus.frames.len());
    assert_eq!(
        feed_upto(&mut staged, &corpus.frames, Stage::Encode),
        corpus.frames.len()
    );
    assert_eq!(fast.counters, staged.counters);
    assert_eq!(fast.last_order(), staged.last_order());
    let mut shallow: Pipeline<SortedLevels> = Pipeline::with_capacity(64);
    feed_upto(&mut shallow, &corpus.frames, Stage::Parse);
    assert_eq!(shallow.counters.messages, staged.counters.messages);
    assert_eq!(shallow.counters.book_updates, 0);
}

/// A stall is charged to everything behind it.
#[test]
fn a_queue_charges_the_wait() {
    let mut q = Queue::new();
    assert!(q.can_serve(0, 10_001));
    q.serve(0, 10_001);
    q.serve(1_000, 100); // starts at 10_001, done at 10_101
    q.serve(20_000, 100); // the queue is idle again
    assert_eq!(q.behind(), 1);
    assert_eq!(q.service(0), 100);
    assert_eq!(q.service(10_000), 10_000, "to the precision of its bucket");
    assert_eq!(q.corrected(0), 100);
    assert_eq!(q.corrected(5_000), 9_100, "9_101 from when it was due");
    assert!(!q.can_serve(u64::MAX, 1));
}

#[test]
fn items_are_due_at_the_offered_rate() {
    // A hundred items in ten microseconds: one is due every hundred nanoseconds.
    assert_eq!(scheduled(0, 100, 10_000, 10_000), Some(0));
    assert_eq!(scheduled(7, 100, 10_000, 10_000), Some(700));
    // At half the load, half as often.
    assert_eq!(scheduled(7, 100, 10_000, 5_000), Some(1_400));
    // No item is reckoned to take less than a nanosecond.
    assert_eq!(scheduled(7, 100, 5, 10_000), Some(7));
    assert_eq!(scheduled(1 << 39, 1, u64::MAX, 1_000), None);
}

#[test]
fn the_best_and_worst_of_repetitions() {
    assert_eq!(best_and_worst(&[5]), (5, 5));
    assert_eq!(best_and_worst(&[5, 3, 9, 4]), (3, 9));
}

#[test]
fn a_cost_inside_its_spread_is_unresolved() {
    let laps = vec![
        vec![100, 104],
        vec![150, 160],
        vec![155, 175],
        vec![150, 150],
        vec![200, 240],
        vec![300, 310],
    ];
    let costs = stage_budget(&laps);
    let got: Vec<(u64, i128, u64, bool)> = costs
        .iter()
        .map(|c| (c.cumulative, c.this_stage, c.spread, c.unresolved))
        .collect();
    assert_eq!(
        got,
        vec![
            (100, 100, 4, false),
            (150, 50, 10, false),
            (155, 5, 20, true),
            (150, -5, 0, true),
            (200, 50, 40, false),
            (300, 100, 10, false),
        ]
    );
    assert_eq!(costs[0].stage, Stage::Receive);
    assert_eq!(costs[5].stage, Stage::Encode);
}

#[test]
fn a_run_warms_up_then_times_then_offers_load() {
    let mut step = RunStep::Warm;
    let mut seen = Vec::new();
    while step != RunStep::Done {
        seen.push(step);
        step = step.next();
    }
    assert_eq!(
        seen,
        vec![
            RunStep::Warm,
            RunStep::Time(0),
            RunStep::Time(1),
            RunStep::Time(2),
            RunStep::Time(3),
            RunStep::Time(4),
            RunStep::Load,
        ]
    );
    assert_eq!(RunStep::Done.next(), RunStep::Done);
}

#[test]
fn a_budget_goes_round_the_stages() {
    let mut step = BudgetStep::Warm.next();
    let mut stages = Vec::new();
    while let BudgetStep::Time { rep, stage } = step {
        assert_eq!(rep, stages.len() / 6);
        stages.push(stage);
        step = step.next();
    }
    assert_eq!(step, BudgetStep::Done);
    assert_eq!(stages.len(), 54);
    assert!(stages.iter().enumerate().all(|(k, s)| *s == k % 6));
}

#[test]
fn a_report_reads_off_the_pipeline_and_the_queue() {
    let req = request(10_000, 0);
    let corpus = build_corpus(req, 500);
    let mut p: Pipeline<SortedLevels> = Pipeline::with_capacity(64);
    feed(&mut p, &corpus.frames);
    let mut q = Queue::new();
    for i in 0..100u64 {
        q.serve(i * 10, 10);
    }
    let r = reported(
        req,
        &corpus,
        &p,
        &q,
        "12.50".to_string(),
        "0.75".to_string(),
    );
    assert_eq!(r.container, "sorted SoA (R1)");
    assert_eq!(r.packets, corpus.frames.len() as u64);
    assert_eq!(r.messages, p.counters.messages);
    assert_eq!(r.orders, p.counters.orders_encoded);
    assert_eq!(r.duplicates_suppressed, corpus.frames.len() as u64 / 2);
    assert_eq!((r.gaps_detected, r.gaps_injected), (0, 0));
    assert_eq!(r.crossed_when_stable, 0);
    assert_eq!((r.service_p50, r.corrected_p99), (10, 10));
    assert_eq!(r.behind_schedule, 0);
    assert_eq!((r.ns_per_packet.as_str(), r.spread.as_str()), ("12.50", "0.75"));
    assert_eq!(r.top.len(), 6);
}
